//! A count of people shown in millions with one decimal, as arithmetic in the
//! double-precision format of IEEE 754 (binary64) gives it, computed with
//! integers only.
//!
//! Three roundings follow one another, each to the nearest neighbour with ties
//! going to the even one: the count to 53 significant bits, its quotient by a
//! million to 53 significant bits again, and ten times that quotient to a whole
//! number of tenths. So 150,000 people show as 0.1 million, the quotient
//! falling just short of 0.15, and 250,000 as 0.2, the quotient being exactly
//! 0.25 and two being even.

use crate::binary::{
    halvings, lemma_doublings, lemma_exponent_below, lemma_halvings, lemma_significand,
    quotient, quotient_by, quotient_shift, significand, tenths_at, tenths_of_double, to_double,
    LEAD, PRECISION,
};
use crate::decimal::{decimal, digit, digit_text, digits};
use crate::rounding::{lemma_nearest_error, nearest};
use vstd::arithmetic::power2::*;
use vstd::prelude::*;
use vstd::string::*;

verus! {

/// One million.
pub const MILLION: u128 = 1_000_000;

/// The count in tenths of a million.
pub open spec fn tenths(n: nat) -> nat {
    let m = significand(n);
    tenths_at(quotient(m, MILLION as nat), halvings(n), quotient_shift(m, MILLION as nat))
}

/// A number of tenths written with one decimal.
pub open spec fn tenths_text(t: nat) -> Seq<char> {
    digits(t / 10) + "."@ + seq![digit(t % 10)]
}

/// The count in millions, written with one decimal.
pub open spec fn millions_text(n: nat) -> Seq<char> {
    tenths_text(tenths(n))
}

/// A quotient by a million takes a shift of at least 19 bits, a million
/// being more than 2<sup>19</sup>.
pub proof fn lemma_million_shift(down: nat)
    requires
        2 * pow2(down) >= MILLION,
    ensures
        down >= 19,
{
    lemma2_to64();
    lemma_exponent_below(18, down);
}

/// The tenths shown are the count in tenths of a million, to within one: the
/// three roundings together stay below one tenth, for every count of one
/// machine word.
pub proof fn lemma_tenths_near(n: nat)
    requires
        n <= u64::MAX,
    ensures
        tenths(n) * 100_000 <= n + 100_000,
        n <= tenths(n) * 100_000 + 100_000,
{
    lemma2_to64();
    lemma2_to64_rest();
    lemma_pow2_adds(53, 11);
    lemma_halvings(n, 11);
    lemma_significand(n);
    let up = halvings(n);
    let unit = pow2(up);
    let s = significand(n);
    lemma_pow2_pos(up);
    if up < 11 {
        lemma_pow2_strictly_increases(up, 11);
    }
    lemma_nearest_error(n, unit);
    if s == 0 {
        assert(0nat * pow2(0) == 0) by (nonlinear_arith);
        assert(nearest(0, MILLION as nat) == 0);
        assert(10 * 0nat * pow2(0) == 0) by (nonlinear_arith);
    } else {
        lemma_doublings(s, LEAD as nat * MILLION as nat);
        let down = quotient_shift(s, MILLION as nat);
        let grown = pow2(down);
        let x = s * grown;
        let q = quotient(s, MILLION as nat);
        assert(grown >= 500_000) by (nonlinear_arith)
            requires
                s * grown >= LEAD * MILLION,
                s <= PRECISION,
                PRECISION == 2 * LEAD,
                s > 0,
        ;
        lemma_million_shift(down);
        let d = (down - up) as nat;
        let part = pow2(d);
        lemma_pow2_adds(up, d);
        lemma_pow2_pos(d);
        if d > 8 {
            lemma_pow2_strictly_increases(8, d);
        }
        lemma_nearest_error(x, MILLION as nat);
        lemma_nearest_error(10 * q, part);
        let t = tenths(n);
        assert(t == nearest(10 * q, part));
        assert(x == s * unit * part) by (nonlinear_arith)
            requires
                x == s * grown,
                grown == unit * part,
        ;
        assert(t * 100_000 <= n + 100_000 && n <= t * 100_000 + 100_000) by (nonlinear_arith)
            requires
                2 * (q * 1_000_000) <= 2 * x + 1_000_000,
                2 * x <= 2 * (q * 1_000_000) + 1_000_000,
                2 * (t * part) <= 2 * (10 * q) + part,
                2 * (10 * q) <= 2 * (t * part) + part,
                x == s * unit * part,
                2 * (s * unit) <= 2 * n + unit,
                2 * n <= 2 * (s * unit) + unit,
                part >= 256,
                0 < unit <= 2048,
        ;
    }
}

/// The count `n` in tenths of a million.
pub fn tenths_of(n: u128) -> (out: u128)
    ensures
        out == tenths(n as nat),
{
    let (kept, up) = to_double(n);
    let (per_million, down) = quotient_by(kept, MILLION);
    proof {
        if per_million > 0 {
            lemma_million_shift(down as nat);
        }
    }
    tenths_of_double(per_million, up, down)
}

/// The number of tenths `t` written with one decimal.
pub fn write_tenths(t: u128) -> (out: String)
    ensures
        out@ == tenths_text(t as nat),
{
    let mut out = decimal(t / 10);
    out.append(".");
    out.append(digit_text(t % 10));
    out
}

/// The count `n` in millions, written with one decimal.
pub fn millions(n: u128) -> (out: String)
    ensures
        out@ == millions_text(n as nat),
{
    write_tenths(tenths_of(n))
}

} // verus!
