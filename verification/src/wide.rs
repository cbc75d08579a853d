//! Natural numbers of up to 192 bits, for the few places where a power of
//! two meets a power of ten and one machine word is not enough.

use crate::rounding::power_of_two;
use vstd::arithmetic::power2::*;
use vstd::prelude::*;

verus! {

/// The number of values of one limb, 2<sup>64</sup>.
pub const LIMB: u128 = 0x1_0000_0000_0000_0000;

/// A natural number below 2<sup>192</sup>, in three limbs of 64 bits.
#[derive(Clone, Copy, Debug)]
pub struct Wide {
    high: u64,
    middle: u64,
    low: u64,
}

/// The first number that a `Wide` cannot hold, 2<sup>192</sup>.
pub open spec fn limit() -> nat {
    LIMB as nat * LIMB as nat * LIMB as nat
}

impl View for Wide {
    type V = nat;

    closed spec fn view(&self) -> nat {
        (self.high as nat * LIMB as nat + self.middle as nat) * LIMB as nat + self.low as nat
    }
}

impl Wide {
    /// The number `n`.
    pub fn from(n: u128) -> (out: Wide)
        ensures
            out@ == n,
    {
        let out = Wide { high: 0, middle: (n / LIMB) as u64, low: (n % LIMB) as u64 };
        assert(out@ == n) by {
            assert((0 * LIMB + (n / LIMB)) * LIMB + n % LIMB == n);
        }
        out
    }

    /// Two to the power `k`.
    pub fn power_of_two(k: u32) -> (out: Wide)
        requires
            k < 192,
        ensures
            out@ == pow2(k as nat),
    {
        proof {
            lemma2_to64();
            lemma2_to64_rest();
            lemma_pow2_adds(64, 64);
            if k >= 128 {
                lemma_pow2_adds(128, (k - 128) as nat);
                lemma_pow2_strictly_increases((k - 128) as nat, 64);
            } else if k >= 64 {
                lemma_pow2_adds(64, (k - 64) as nat);
                lemma_pow2_strictly_increases((k - 64) as nat, 64);
            } else {
                lemma_pow2_strictly_increases(k as nat, 64);
            }
        }
        if k >= 128 {
            let bit = power_of_two(k - 128);
            let out = Wide { high: bit as u64, middle: 0, low: 0 };
            assert(out@ == pow2(k as nat)) by (nonlinear_arith)
                requires
                    out@ == (bit * LIMB + 0) * LIMB + 0,
                    pow2(k as nat) == pow2(128) * bit,
                    pow2(128) == LIMB * LIMB,
            ;
            out
        } else if k >= 64 {
            let bit = power_of_two(k - 64);
            let out = Wide { high: 0, middle: bit as u64, low: 0 };
            assert(out@ == pow2(k as nat)) by (nonlinear_arith)
                requires
                    out@ == (0 * LIMB + bit) * LIMB + 0,
                    pow2(k as nat) == LIMB * bit,
            ;
            out
        } else {
            let bit = power_of_two(k);
            let out = Wide { high: 0, middle: 0, low: bit as u64 };
            assert(out@ == pow2(k as nat)) by (nonlinear_arith)
                requires
                    out@ == (0 * LIMB + 0) * LIMB + bit,
                    pow2(k as nat) == bit,
            ;
            out
        }
    }

    /// Ten times the number.
    pub fn times_ten(&self) -> (out: Wide)
        requires
            10 * self@ < limit(),
        ensures
            out@ == 10 * self@,
    {
        let low = self.low as u128 * 10;
        let middle = self.middle as u128 * 10 + low / LIMB;
        let high = self.high as u128 * 10 + middle / LIMB;
        assert(10 * self@ == (high * LIMB + middle % LIMB) * LIMB + low % LIMB) by (nonlinear_arith)
            requires
                self@ == (self.high * LIMB + self.middle) * LIMB + self.low,
                low == self.low * 10,
                middle == self.middle * 10 + low / LIMB,
                high == self.high * 10 + middle / LIMB,
                low == LIMB * (low / LIMB) + low % LIMB,
                middle == LIMB * (middle / LIMB) + middle % LIMB,
        ;
        assert(high < LIMB) by (nonlinear_arith)
            requires
                (high * LIMB + middle % LIMB) * LIMB + low % LIMB < LIMB * LIMB * LIMB,
                0 <= middle % LIMB,
                0 <= low % LIMB,
        ;
        Wide { high: high as u64, middle: (middle % LIMB) as u64, low: (low % LIMB) as u64 }
    }

    /// The sum of this number and `other`.
    pub fn plus(&self, other: &Wide) -> (out: Wide)
        requires
            self@ + other@ < limit(),
        ensures
            out@ == self@ + other@,
    {
        let low = self.low as u128 + other.low as u128;
        let middle = self.middle as u128 + other.middle as u128 + low / LIMB;
        let high = self.high as u128 + other.high as u128 + middle / LIMB;
        assert(self@ + other@ == (high * LIMB + middle % LIMB) * LIMB + low % LIMB)
            by (nonlinear_arith)
            requires
                self@ == (self.high * LIMB + self.middle) * LIMB + self.low,
                other@ == (other.high * LIMB + other.middle) * LIMB + other.low,
                low == self.low + other.low,
                middle == self.middle + other.middle + low / LIMB,
                high == self.high + other.high + middle / LIMB,
                low == LIMB * (low / LIMB) + low % LIMB,
                middle == LIMB * (middle / LIMB) + middle % LIMB,
        ;
        assert(high < LIMB) by (nonlinear_arith)
            requires
                (high * LIMB + middle % LIMB) * LIMB + low % LIMB < LIMB * LIMB * LIMB,
                0 <= middle % LIMB,
                0 <= low % LIMB,
        ;
        Wide { high: high as u64, middle: (middle % LIMB) as u64, low: (low % LIMB) as u64 }
    }

    /// Whether this number is smaller than `other`.
    pub fn is_below(&self, other: &Wide) -> (out: bool)
        ensures
            out == (self@ < other@),
    {
        proof {
            lemma_order(*self, *other);
            lemma_order(*other, *self);
        }
        if self.high != other.high {
            self.high < other.high
        } else if self.middle != other.middle {
            self.middle < other.middle
        } else {
            self.low < other.low
        }
    }

    /// This number less `other`.
    pub fn minus(&self, other: &Wide) -> (out: Wide)
        requires
            other@ <= self@,
        ensures
            out@ == self@ - other@,
    {
        proof {
            lemma_order(*self, *other);
        }
        let (low, lent) = if self.low >= other.low {
            (self.low as u128 - other.low as u128, 0u128)
        } else {
            (LIMB + self.low as u128 - other.low as u128, 1u128)
        };
        let (middle, owed) = if self.middle as u128 >= other.middle as u128 + lent {
            (self.middle as u128 - other.middle as u128 - lent, 0u128)
        } else {
            (LIMB + self.middle as u128 - other.middle as u128 - lent, 1u128)
        };
        let high = self.high as u128 - other.high as u128 - owed;
        assert(self@ - other@ == (high * LIMB + middle) * LIMB + low) by (nonlinear_arith)
            requires
                self@ == (self.high * LIMB + self.middle) * LIMB + self.low,
                other@ == (other.high * LIMB + other.middle) * LIMB + other.low,
                low == lent * LIMB + self.low - other.low,
                middle == owed * LIMB + self.middle - other.middle - lent,
                high == self.high - other.high - owed,
        ;
        Wide { high: high as u64, middle: middle as u64, low: low as u64 }
    }
}

/// Numbers are in the order of their limbs, the highest first.
proof fn lemma_order(a: Wide, b: Wide)
    ensures
        a@ < b@ <==> a.high < b.high || (a.high == b.high && (a.middle < b.middle || (a.middle
            == b.middle && a.low < b.low))),
{
    assert(a@ < b@ <==> a.high < b.high || (a.high == b.high && (a.middle < b.middle || (a.middle
        == b.middle && a.low < b.low)))) by (nonlinear_arith)
        requires
            a@ == (a.high * LIMB + a.middle) * LIMB + a.low,
            b@ == (b.high * LIMB + b.middle) * LIMB + b.low,
            a.high < LIMB,
            a.middle < LIMB,
            a.low < LIMB,
            b.high < LIMB,
            b.middle < LIMB,
            b.low < LIMB,
    ;
}

} // verus!
