//! The area of a country: a non-negative binary number of at most 24
//! significant bits, in the single-precision format of IEEE 754 (binary32),
//! kept by its bit pattern and read with integer arithmetic only.
//!
//! The pattern's upper nine bits give a sign and a binary exponent, and its
//! lower 23 bits a fraction. An area is modelled as the natural number of
//! units of 2<sup>-149</sup> that it measures, the smallest step such a
//! pattern can express; zero stands for an unknown area. Patterns are in the
//! order of the numbers they stand for, so areas are compared by them.

use crate::decimal::{decimal, digits};
use crate::rounding::{
    lemma_nearest_bounds, lemma_nearest_exact, lemma_nearest_scale, lemma_nearest_small,
    lemma_two_to_128, nearest, power_of_two, round_to_nearest,
};
use vstd::arithmetic::div_mod::*;
use vstd::arithmetic::mul::*;
use vstd::arithmetic::power2::*;
use vstd::prelude::*;

verus! {

/// The largest bit pattern that stands for a finite, non-negative number.
pub const MAX_FINITE: u32 = 0x7f7f_ffff;

/// The number of fraction patterns under one exponent, 2<sup>23</sup>.
pub const FRACTIONS: u32 = 0x80_0000;

/// The significant bits of a pattern, as a number.
pub open spec fn mantissa(bits: u32) -> nat {
    if bits / FRACTIONS == 0 {
        (bits % FRACTIONS) as nat
    } else {
        (FRACTIONS + bits % FRACTIONS) as nat
    }
}

/// The power of two by which a pattern's mantissa counts units.
pub open spec fn exponent(bits: u32) -> nat {
    if bits / FRACTIONS == 0 {
        0
    } else {
        (bits / FRACTIONS - 1) as nat
    }
}

/// The number of units of 2<sup>-149</sup> that a pattern stands for.
pub open spec fn value_of(bits: u32) -> nat {
    mantissa(bits) * pow2(exponent(bits))
}

/// The number of units in one whole: 2<sup>149</sup>.
pub open spec fn one() -> nat {
    pow2(149)
}

/// An area of `value` units rounded to a whole number, half way going to the
/// even neighbour.
pub open spec fn whole(value: nat) -> nat {
    nearest(value, one())
}

/// An area of `value` units as text, without decimals.
pub open spec fn whole_text(value: nat) -> Seq<char> {
    digits(whole(value))
}

/// A larger pattern stands for a larger number, and the other way round.
pub proof fn lemma_value_order(a: u32, b: u32)
    ensures
        a < b <==> value_of(a) < value_of(b),
        a == b <==> value_of(a) == value_of(b),
        value_of(a) == 0 <==> a == 0,
{
    lemma_value_increases(a, b);
    lemma_value_increases(b, a);
    lemma_value_increases(0, a);
    assert(value_of(0) == 0) by {
        lemma_mul_basics(pow2(0) as int);
    }
}

proof fn lemma_value_increases(a: u32, b: u32)
    ensures
        a < b ==> value_of(a) < value_of(b),
{
    if a < b {
        let (ea, eb) = (exponent(a), exponent(b));
        let (ma, mb) = (mantissa(a), mantissa(b));
        lemma_pow2_pos(ea);
        lemma_pow2_pos(eb);
        if a / FRACTIONS == b / FRACTIONS {
            assert(ma < mb);
            lemma_mul_strict_inequality(ma as int, mb as int, pow2(ea) as int);
        } else if a / FRACTIONS == 0 {
            assert(ma < FRACTIONS <= mb);
            lemma_mul_basics(ma as int);
            lemma_mul_inequality(1, pow2(eb) as int, mb as int);
            assert(ma * pow2(0) == ma) by {
                lemma2_to64();
            }
        } else {
            assert(ea + 1 <= eb);
            lemma_pow2_unfold(ea + 1);
            if ea + 1 < eb {
                lemma_pow2_strictly_increases(ea + 1, eb);
            }
            assert(ma * pow2(ea) < FRACTIONS * pow2(eb)) by (nonlinear_arith)
                requires
                    ma < 2 * FRACTIONS,
                    2 * pow2(ea) <= pow2(eb),
                    pow2(ea) > 0,
            ;
            lemma_mul_inequality(FRACTIONS as int, mb as int, pow2(eb) as int);
        }
    }
}

/// The whole number nearest to the value of a pattern, read from its
/// mantissa and exponent: a mantissa that counts wholes or more is scaled up,
/// one that counts parts of a whole is divided and rounded, and one that
/// counts parts too small to reach a half rounds to zero. The whole number of
/// a finite pattern is below 2<sup>128</sup>.
pub proof fn lemma_whole_of_bits(bits: u32)
    ensures
        whole(value_of(bits)) == if exponent(bits) >= 149 {
            mantissa(bits) * pow2((exponent(bits) - 149) as nat)
        } else if 149 - exponent(bits) <= 24 {
            nearest(mantissa(bits), pow2((149 - exponent(bits)) as nat))
        } else {
            0
        },
        bits <= MAX_FINITE ==> whole(value_of(bits)) <= u128::MAX,
{
    let m = mantissa(bits);
    let e = exponent(bits);
    lemma2_to64();
    if e >= 149 {
        let p = pow2((e - 149) as nat);
        lemma_pow2_adds((e - 149) as nat, 149);
        lemma_pow2_pos(149);
        lemma_mul_is_associative(m as int, p as int, one() as int);
        lemma_nearest_exact(m * p, one());
        if bits <= MAX_FINITE {
            lemma_two_to_128();
            lemma_pow2_adds(24, 104);
            lemma_pow2_pos(104);
            if e - 149 < 104 {
                lemma_pow2_strictly_increases((e - 149) as nat, 104);
            }
            assert(m * p <= (pow2(24) - 1) * pow2(104)) by (nonlinear_arith)
                requires
                    m <= pow2(24) - 1,
                    p <= pow2(104),
                    0 <= m,
                    0 <= p,
            ;
            assert((pow2(24) - 1) * pow2(104) < pow2(128)) by (nonlinear_arith)
                requires
                    pow2(24) * pow2(104) == pow2(128),
                    pow2(104) > 0,
            ;
        }
    } else {
        let s = (149 - e) as nat;
        lemma_pow2_adds(e, s);
        lemma_pow2_pos(e);
        lemma_pow2_pos(s);
        lemma_nearest_scale(m, pow2(s), pow2(e));
        lemma_mul_is_commutative(m as int, pow2(e) as int);
        if s > 24 {
            if s > 25 {
                lemma_pow2_strictly_increases(25, s);
            }
            lemma_nearest_small(m, pow2(s));
        } else {
            lemma_nearest_bounds(m, pow2(s));
            lemma_div_pos_is_pos(m as int, pow2(s) as int);
            lemma_div_is_ordered_by_denominator(m as int, 1, pow2(s) as int);
        }
    }
}

/// An area, finite and not negative.
#[derive(Clone, Copy, Debug, PartialEq, Eq, Structural)]
pub struct Area {
    bits: u32,
}

impl View for Area {
    type V = nat;

    /// The area in units of 2<sup>-149</sup>.
    open spec fn view(&self) -> nat {
        value_of(self.bits())
    }
}

impl Default for Area {
    /// The unknown area.
    fn default() -> (out: Area)
        ensures
            out.bits() == 0,
            out@ == 0,
    {
        Area::zero()
    }
}

impl Area {
    #[verifier::type_invariant]
    spec fn finite(self) -> bool {
        self.bits <= MAX_FINITE
    }

    /// The bit pattern that holds this area.
    pub closed spec fn bits(self) -> u32 {
        self.bits
    }

    /// The area that `bits` holds, unless the pattern stands for a negative
    /// number, an infinity or no number at all.
    pub fn from_bits(bits: u32) -> (out: Option<Area>)
        ensures
            out is Some <==> bits <= MAX_FINITE,
            out matches Some(area) ==> area.bits() == bits,
    {
        if bits <= MAX_FINITE {
            Some(Area { bits })
        } else {
            None
        }
    }

    /// The bit pattern of this area.
    pub fn to_bits(&self) -> (bits: u32)
        ensures
            bits == self.bits(),
            bits <= MAX_FINITE,
    {
        proof {
            use_type_invariant(self);
        }
        self.bits
    }

    /// The unknown area.
    pub fn zero() -> (out: Area)
        ensures
            out.bits() == 0,
            out@ == 0,
    {
        proof {
            lemma_value_order(0, 0);
        }
        Area { bits: 0 }
    }

    /// Whether the area is known, that is greater than zero.
    pub fn is_positive(&self) -> (out: bool)
        ensures
            out == (self@ > 0),
    {
        proof {
            lemma_value_order(self.bits, 0);
        }
        self.bits > 0
    }

    /// Whether this area is smaller than `other`.
    pub fn is_below(&self, other: &Area) -> (out: bool)
        ensures
            out == (self@ < other@),
    {
        proof {
            lemma_value_order(self.bits, other.bits);
        }
        self.bits < other.bits
    }

    /// The area rounded to a whole number.
    pub fn rounded(&self) -> (out: u128)
        ensures
            out == whole(self@),
    {
        proof {
            use_type_invariant(self);
            lemma_whole_of_bits(self.bits);
        }
        let field = self.bits / FRACTIONS;
        let fraction = self.bits % FRACTIONS;
        let m: u32 = if field == 0 {
            fraction
        } else {
            FRACTIONS + fraction
        };
        let e: u32 = if field == 0 {
            0
        } else {
            field - 1
        };
        if e >= 149 {
            (m as u128) * power_of_two(e - 149)
        } else if 149 - e <= 24 {
            round_to_nearest(m as u128, power_of_two(149 - e))
        } else {
            0
        }
    }

    /// The area as text, without decimals.
    pub fn rounded_text(&self) -> (out: String)
        ensures
            out@ == whole_text(self@),
    {
        decimal(self.rounded())
    }
}

} // verus!
