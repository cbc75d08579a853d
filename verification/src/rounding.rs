//! Rounding a quotient to the nearest natural number, ties going to the even
//! neighbour, and the powers of two that binary numbers are scaled by.

use vstd::arithmetic::div_mod::*;
use vstd::arithmetic::power2::*;
use vstd::prelude::*;

verus! {

/// `n / d` rounded to the nearest natural number; a quotient half way between
/// two of them goes to the even one.
pub open spec fn nearest(n: nat, d: nat) -> nat
    recommends
        d > 0,
{
    let q = n / d;
    let r = n % d;
    if 2 * r > d || (2 * r == d && q % 2 == 1) {
        q + 1
    } else {
        q
    }
}

/// A multiple of the divisor rounds to the exact quotient.
pub proof fn lemma_nearest_exact(x: nat, d: nat)
    requires
        d > 0,
    ensures
        nearest(x * d, d) == x,
{
    lemma_div_by_multiple(x as int, d as int);
    lemma_mod_multiples_basic(x as int, d as int);
}

/// Scaling both sides of a quotient leaves its rounding unchanged.
pub proof fn lemma_nearest_scale(n: nat, d: nat, k: nat)
    requires
        d > 0,
        k > 0,
    ensures
        nearest(k * n, k * d) == nearest(n, d),
{
    lemma_div_multiples_vanish_quotient(k as int, n as int, d as int);
    lemma_truncate_middle(n as int, k as int, d as int);
    let r = n % d;
    assert((k * n) % (k * d) == k * r);
    assert(2 * (k * r) > k * d <==> 2 * r > d) by (nonlinear_arith)
        requires
            k > 0,
    ;
    assert(2 * (k * r) == k * d <==> 2 * r == d) by (nonlinear_arith)
        requires
            k > 0,
    ;
}

/// A quotient below one half rounds to zero.
pub proof fn lemma_nearest_small(n: nat, d: nat)
    requires
        2 * n < d,
    ensures
        nearest(n, d) == 0,
{
    lemma_basic_div(n as int, d as int);
    lemma_small_mod(n, d);
}

/// Rounding moves a quotient by less than one.
pub proof fn lemma_nearest_bounds(n: nat, d: nat)
    requires
        d > 0,
    ensures
        n / d <= nearest(n, d) <= n / d + 1,
        nearest(n, d) * d <= n + d,
{
    lemma_fundamental_div_mod(n as int, d as int);
    lemma_mod_bound(n as int, d as int);
    let q = n / d;
    let r = n % d;
    assert(n == d * q + r);
    if nearest(n, d) == q + 1 {
        assert((q + 1) * d == d * q + d) by (nonlinear_arith);
    } else {
        assert(q * d == d * q) by (nonlinear_arith);
    }
}

/// Rounding moves a quotient by at most one half: the rounded quotient
/// times the divisor is within half the divisor of the dividend.
pub proof fn lemma_nearest_error(n: nat, d: nat)
    requires
        d > 0,
    ensures
        2 * (nearest(n, d) * d) <= 2 * n + d,
        2 * n <= 2 * (nearest(n, d) * d) + d,
{
    lemma_fundamental_div_mod(n as int, d as int);
    lemma_mod_bound(n as int, d as int);
    let q = n / d;
    let r = n % d;
    assert(q * d == d * q) by (nonlinear_arith);
    assert((q + 1) * d == d * q + d) by (nonlinear_arith);
}

/// The value of 2<sup>128</sup>, one more than the largest `u128`.
pub proof fn lemma_two_to_128()
    ensures
        pow2(128) == u128::MAX + 1,
{
    lemma2_to64_rest();
    lemma_pow2_adds(64, 64);
    assert(pow2(64) * pow2(64) == 0x1_0000_0000_0000_0000_0000_0000_0000_0000) by (nonlinear_arith)
        requires
            pow2(64) == 0x1_0000_0000_0000_0000,
    ;
}

/// Two to the power `k`.
pub fn power_of_two(k: u32) -> (out: u128)
    requires
        k < 128,
    ensures
        out == pow2(k as nat),
        out > 0,
{
    let mut out: u128 = 1;
    let mut i: u32 = 0;
    proof {
        lemma2_to64();
        lemma_pow2_pos(k as nat);
    }
    while i < k
        invariant
            i <= k,
            k < 128,
            out == pow2(i as nat),
        decreases k - i,
    {
        proof {
            lemma_pow2_unfold((i + 1) as nat);
            lemma_pow2_strictly_increases((i + 1) as nat, 128);
            lemma_two_to_128();
        }
        out = out * 2;
        i += 1;
    }
    out
}

/// `n / d` rounded to the nearest natural number, ties to even.
pub fn round_to_nearest(n: u128, d: u128) -> (out: u128)
    requires
        d > 0,
    ensures
        out == nearest(n as nat, d as nat),
{
    let q = n / d;
    let r = n % d;
    if r > d - r || (r == d - r && q % 2 == 1) {
        assert(q < u128::MAX) by {
            assert(d >= 2);
            lemma_div_is_ordered_by_denominator(n as int, 2, d as int);
        }
        q + 1
    } else {
        q
    }
}

} // verus!
