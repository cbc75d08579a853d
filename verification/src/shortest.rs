//! The shortest decimal that tells an area from every other: the text that
//! shows a binary number with as many digits as it takes to read it back, and
//! no more.
//!
//! Every number close enough to the one a bit pattern holds reads back as
//! that pattern: its reach goes half way to the neighbour below and half way
//! to the neighbour above. Of the decimals in that reach the one with the
//! fewest digits is shown, and where two of that length are in reach, the
//! nearer one.

use crate::area::{Area, FRACTIONS};
use crate::decimal::{decimal, digits, lemma_digits_ascii};
use crate::rounding::{lemma_two_to_128, power_of_two};
use crate::text::{run, zeros};
use crate::wide::{limit, Wide, LIMB};
use vstd::arithmetic::div_mod::*;
use vstd::arithmetic::mul::*;
use vstd::arithmetic::power2::*;
use vstd::prelude::*;
use vstd::string::*;

verus! {

/// The most digits that are ever tried.
pub const MOST_DIGITS: u32 = 17;

/// Ten to the power `n`.
pub open spec fn pow10(n: nat) -> nat
    decreases n,
{
    if n == 0 {
        1
    } else {
        10 * pow10((n - 1) as nat)
    }
}

/// The reach of a number: the number is `value / scale`, and every number
/// from `(value - below) / scale` to `(value + above) / scale` reads back as
/// it does; the two ends do so where the reach is `closed`.
pub struct Reach {
    pub value: nat,
    pub below: nat,
    pub above: nat,
    pub scale: nat,
    pub closed: bool,
}

/// The reach of the number that a pattern holds, in halves of the step to its
/// neighbours. A number at the foot of its power of two has its neighbour
/// below at half the distance, and is measured in quarters. The reach is
/// closed where the significand is even, and for every number too small to
/// have a full significand.
pub open spec fn reach(bits: u32) -> Reach {
    let field = bits / FRACTIONS;
    let fraction = bits % FRACTIONS;
    if field == 0 {
        Reach { value: 2 * fraction as nat, below: 1, above: 1, scale: pow2(150), closed: true }
    } else if fraction == 0 {
        scaled(4 * FRACTIONS as nat, 1, 2, field - 152, true)
    } else {
        scaled(2 * (FRACTIONS + fraction) as nat, 1, 1, field - 151, fraction % 2 == 0)
    }
}

/// A reach whose parts count two to the power `exponent`.
pub open spec fn scaled(value: nat, below: nat, above: nat, exponent: int, closed: bool) -> Reach {
    if exponent >= 0 {
        Reach {
            value: value * pow2(exponent as nat),
            below: below * pow2(exponent as nat),
            above: above * pow2(exponent as nat),
            scale: 1,
            closed,
        }
    } else {
        Reach { value, below, above, scale: pow2((-exponent) as nat), closed }
    }
}

/// Whether `h` gets as far as `s`: to it for a closed reach, past it for an
/// open one.
pub open spec fn gets_to(h: nat, s: nat, closed: bool) -> bool {
    if closed {
        h >= s
    } else {
        h > s
    }
}

/// How many times `s` is to be taken tenfold before `h` no longer gets to it.
pub open spec fn tens_up(h: nat, s: nat, closed: bool) -> nat
    decreases
            (if h >= s {
                h - s + 1
            } else {
                0
            }),
{
    if s == 0 || !gets_to(h, s, closed) {
        0
    } else {
        1 + tens_up(h, 10 * s, closed)
    }
}

/// How many times `h` is to be taken tenfold before it gets to `s`.
pub open spec fn tens_down(h: nat, s: nat, closed: bool) -> nat
    decreases
            (if h <= s {
                s - h + 1
            } else {
                0
            }),
{
    if h == 0 || gets_to(h, s, closed) {
        0
    } else {
        1 + tens_down(10 * h, s, closed)
    }
}

/// The place of the first digit: the power of ten that the top of the reach
/// stays under. For a number below one it is zero or less, and counted as
/// `lead` places behind the point instead.
pub open spec fn places(r: Reach) -> nat {
    tens_up(r.value + r.above, r.scale, r.closed)
}

/// The zeros between the point and the first digit of a number below one,
/// and one more.
pub open spec fn lead(r: Reach) -> nat {
    tens_down(r.value + r.above, r.scale, r.closed)
}

/// The power of ten that scales the parts of the reach before the first
/// digit is taken.
pub open spec fn head(r: Reach) -> nat {
    if places(r) > 0 {
        0
    } else {
        (lead(r) - 1) as nat
    }
}

/// What the scaled parts are divided by.
pub open spec fn divisor(r: Reach) -> nat {
    r.scale * pow10(places(r))
}

/// The first `p` digits of the number, as a number.
pub open spec fn leading(r: Reach, p: nat) -> nat {
    (r.value * pow10(head(r) + p)) / divisor(r)
}

/// What the first `p` digits leave of the number.
pub open spec fn rest(r: Reach, p: nat) -> nat {
    (r.value * pow10(head(r) + p)) % divisor(r)
}

/// Whether the first `p` digits as they are lie in reach.
pub open spec fn down_in_reach(r: Reach, p: nat) -> bool {
    gets_to(r.below * pow10(head(r) + p), rest(r, p), r.closed)
}

/// Whether the first `p` digits with one added to the last lie in reach.
pub open spec fn up_in_reach(r: Reach, p: nat) -> bool {
    gets_to(rest(r, p) + r.above * pow10(head(r) + p), divisor(r), r.closed)
}

/// The number of digits that are shown: the fewest, from `p` on, of which a
/// decimal lies in reach.
pub open spec fn digits_needed(r: Reach, p: nat) -> nat
    decreases MOST_DIGITS - p,
{
    if p >= MOST_DIGITS || down_in_reach(r, p) || up_in_reach(r, p) {
        p
    } else {
        digits_needed(r, p + 1)
    }
}

/// The digits that are shown, as a number: the first digits of the number,
/// with one added to the last where only that lies in reach or lies nearer.
pub open spec fn shown(r: Reach) -> nat {
    let p = digits_needed(r, 1);
    if up_in_reach(r, p) && (!down_in_reach(r, p) || 2 * rest(r, p) >= divisor(r)) {
        leading(r, p) + 1
    } else {
        leading(r, p)
    }
}

/// The digits `s` with the point `e` places behind their start: behind
/// zeros where `e` is not positive, among the digits, or not at all where
/// zeros fill the places up to it.
pub open spec fn pointed(s: Seq<char>, e: int) -> Seq<char> {
    if e <= 0 {
        "0."@ + run('0', (-e) as nat) + s
    } else if e < s.len() {
        s.subrange(0, e) + "."@ + s.subrange(e, s.len() as int)
    } else {
        s + run('0', (e - s.len()) as nat)
    }
}

/// The shortest decimal of the number that a pattern holds.
pub open spec fn shortest_text(bits: u32) -> Seq<char> {
    if bits == 0 {
        "0"@
    } else {
        let r = reach(bits);
        let s = digits(shown(r));
        pointed(s, places(r) - head(r) + s.len() - digits_needed(r, 1))
    }
}

/// What is shown lies in reach, so that it reads back as the number it
/// shows: the digits, taken as the decimal they stand for, are no further
/// below the number and no further above it than the reach goes. This is
/// stated of numbers that are shown with fewer digits than are ever tried.
pub proof fn lemma_shown_in_reach(r: Reach)
    requires
        r.scale > 0,
        r.below <= r.value,
        digits_needed(r, 1) < MOST_DIGITS,
    ensures
        (r.value - r.below) * pow10(head(r) + digits_needed(r, 1)) <= shown(r) * divisor(r),
        shown(r) * divisor(r) <= (r.value + r.above) * pow10(head(r) + digits_needed(r, 1)),
{
    let p = digits_needed(r, 1);
    let ten = pow10(head(r) + p);
    let into = divisor(r);
    let whole = r.value * ten;
    lemma_stops(r, 1);
    lemma_pow10_step(r.scale, places(r));
    lemma_pow10_step(1, places(r));
    assert(into > 0) by (nonlinear_arith)
        requires
            into == r.scale * pow10(places(r)),
            r.scale > 0,
            pow10(places(r)) > 0,
    ;
    lemma_fundamental_div_mod(whole as int, into as int);
    lemma_mod_bound(whole as int, into as int);
    let first = leading(r, p);
    let left = rest(r, p);
    assert((r.value - r.below) * ten == whole - r.below * ten && (r.value + r.above) * ten
        == whole + r.above * ten) by (nonlinear_arith)
        requires
            whole == r.value * ten,
    ;
    assert(first * into == into * first && (first + 1) * into == into * first + into)
        by (nonlinear_arith);
}

/// The digits that are needed are those at which a decimal lies in reach,
/// unless all that are ever tried were tried.
proof fn lemma_stops(r: Reach, p: nat)
    requires
        1 <= p <= MOST_DIGITS,
    ensures
        p <= digits_needed(r, p) <= MOST_DIGITS,
        digits_needed(r, p) < MOST_DIGITS ==> down_in_reach(r, digits_needed(r, p)) || up_in_reach(
            r,
            digits_needed(r, p),
        ),
    decreases MOST_DIGITS - p,
{
    if !(p >= MOST_DIGITS || down_in_reach(r, p) || up_in_reach(r, p)) {
        lemma_stops(r, p + 1);
    }
}

/// Where taking `s` tenfold stops, `h` no longer gets to it, but got to it
/// one step before.
proof fn lemma_tens_up(h: nat, s: nat, closed: bool)
    requires
        s > 0,
    ensures
        !gets_to(h, s * pow10(tens_up(h, s, closed)), closed),
        tens_up(h, s, closed) > 0 ==> gets_to(
            h,
            s * pow10((tens_up(h, s, closed) - 1) as nat),
            closed,
        ),
    decreases
            (if h >= s {
                h - s + 1
            } else {
                0
            }),
{
    let j = tens_up(h, s, closed);
    if gets_to(h, s, closed) {
        lemma_tens_up(h, 10 * s, closed);
        let rest = tens_up(h, 10 * s, closed);
        lemma_pow10_step(s, rest);
        assert(s * pow10(rest + 1) == (10 * s) * pow10(rest)) by (nonlinear_arith)
            requires
                s * pow10(rest + 1) == 10 * (s * pow10(rest)),
        ;
        if rest > 0 {
            lemma_pow10_step(s, (rest - 1) as nat);
            assert(s * pow10(rest) == (10 * s) * pow10((rest - 1) as nat)) by (nonlinear_arith)
                requires
                    s * pow10(rest) == 10 * (s * pow10((rest - 1) as nat)),
            ;
        } else {
            assert(s * pow10(0) == s) by (nonlinear_arith)
                requires
                    pow10(0) == 1,
            ;
        }
    } else {
        assert(s * pow10(0) == s) by (nonlinear_arith)
            requires
                pow10(0) == 1,
        ;
    }
}

/// Where taking `h` tenfold stops, it gets to `s`.
proof fn lemma_tens_down(h: nat, s: nat, closed: bool)
    requires
        h > 0,
    ensures
        gets_to(h * pow10(tens_down(h, s, closed)), s, closed),
    decreases
            (if h <= s {
                s - h + 1
            } else {
                0
            }),
{
    if gets_to(h, s, closed) {
        assert(h * pow10(0) == h) by (nonlinear_arith)
            requires
                pow10(0) == 1,
        ;
    } else {
        lemma_tens_down(10 * h, s, closed);
        let rest = tens_down(10 * h, s, closed);
        lemma_pow10_step(h, rest);
        assert(h * pow10(rest + 1) == (10 * h) * pow10(rest)) by (nonlinear_arith)
            requires
                h * pow10(rest + 1) == 10 * (h * pow10(rest)),
        ;
    }
}

/// No more digits are needed than those at which a decimal lies in reach.
proof fn lemma_needed_by(r: Reach, p: nat, q: nat)
    requires
        1 <= p <= q <= MOST_DIGITS,
        down_in_reach(r, q) || up_in_reach(r, q),
    ensures
        digits_needed(r, p) <= q,
    decreases q - p,
{
    if p < q && !(down_in_reach(r, p) || up_in_reach(r, p)) {
        lemma_needed_by(r, p + 1, q);
    }
}

/// The numbers that patterns hold are wide apart for nine digits: their
/// reach is more than a hundred-millionth of the number, so that one of any
/// two decimals of nine digits that the number lies between is in reach.
pub proof fn lemma_nine_digits(r: Reach)
    requires
        r.scale > 0,
        r.above > 0,
        r.value + r.above < 100_000_000 * (r.below + r.above),
    ensures
        digits_needed(r, 1) <= 9,
{
    let top = r.value + r.above;
    let into = divisor(r);
    let ten = pow10(head(r) + 9);
    lemma_tens_up(top, r.scale, r.closed);
    lemma_pow10_step(1, head(r));
    lemma_pow10_step(1, places(r));
    // ten times the top, scaled as the parts are, reaches what they are divided by
    let raised = top * pow10(head(r) + 1);
    if places(r) > 0 {
        lemma_pow10_step(r.scale, (places(r) - 1) as nat);
        lemma_pow10_step(top, 0);
        assert(top * pow10(0) == top) by (nonlinear_arith)
            requires
                pow10(0) == 1,
        ;
    } else {
        lemma_tens_down(top, r.scale, r.closed);
        assert(r.scale * pow10(0) == r.scale) by (nonlinear_arith)
            requires
                pow10(0) == 1,
        ;
    }
    assert(raised >= into);
    lemma_pow10_eight(head(r) + 1);
    let width = (r.below + r.above) * ten;
    assert(width > raised) by (nonlinear_arith)
        requires
            width == (r.below + r.above) * ten,
            ten == 100_000_000 * pow10(head(r) + 1),
            raised == top * pow10(head(r) + 1),
            top < 100_000_000 * (r.below + r.above),
            pow10(head(r) + 1) > 0,
    ;
    assert(into > 0) by (nonlinear_arith)
        requires
            into == r.scale * pow10(places(r)),
            r.scale > 0,
            pow10(places(r)) > 0,
    ;
    lemma_mod_bound((r.value * ten) as int, into as int);
    assert(width == r.below * ten + r.above * ten) by (nonlinear_arith)
        requires
            width == (r.below + r.above) * ten,
    ;
    assert(down_in_reach(r, 9) || up_in_reach(r, 9));
    lemma_needed_by(r, 1, 9);
}

/// Eight more powers of ten are a hundred million times as much.
proof fn lemma_pow10_eight(n: nat)
    ensures
        pow10(n + 8) == 100_000_000 * pow10(n),
{
    lemma_pow10_step(1, n);
    lemma_pow10_step(1, n + 1);
    lemma_pow10_step(1, n + 2);
    lemma_pow10_step(1, n + 3);
    lemma_pow10_step(1, n + 4);
    lemma_pow10_step(1, n + 5);
    lemma_pow10_step(1, n + 6);
    lemma_pow10_step(1, n + 7);
}

/// The reach of every number above zero that a pattern holds has a scale,
/// goes no further down than to zero, and is more than a hundred-millionth
/// of the number.
pub proof fn lemma_reach(bits: u32)
    requires
        bits > 0,
    ensures
        reach(bits).scale > 0,
        0 < reach(bits).below <= reach(bits).value,
        0 < reach(bits).above <= reach(bits).value,
        reach(bits).value + reach(bits).above < 100_000_000 * (reach(bits).below + reach(
            bits,
        ).above),
{
    let field = bits / FRACTIONS;
    let fraction = bits % FRACTIONS;
    let r = reach(bits);
    lemma_pow2_pos(150);
    if field > 0 {
        let exponent: int = if fraction == 0 {
            field - 152
        } else {
            field - 151
        };
        if exponent >= 0 {
            let unit = pow2(exponent as nat);
            lemma_pow2_pos(exponent as nat);
            if fraction == 0 {
                assert(1 * unit <= (4 * FRACTIONS) * unit && 2 * unit <= (4 * FRACTIONS) * unit
                    && (4 * FRACTIONS) * unit + 2 * unit < 100_000_000 * (1 * unit + 2 * unit))
                    by (nonlinear_arith)
                    requires
                        unit > 0,
                ;
            } else {
                let value = (2 * (FRACTIONS + fraction)) as nat;
                assert(1 * unit <= value * unit && value * unit + 1 * unit < 100_000_000 * (1
                    * unit + 1 * unit)) by (nonlinear_arith)
                    requires
                        unit > 0,
                        1 <= value < 40_000_000,
                ;
            }
        } else {
            lemma_pow2_pos((-exponent) as nat);
        }
    }
}

/// What is shown of the number that a pattern holds lies in its reach, so
/// that it reads back as that number and as no other; and nine digits are
/// the most that it takes.
pub proof fn lemma_reads_back(bits: u32)
    requires
        bits > 0,
    ensures
        digits_needed(reach(bits), 1) <= 9,
        (reach(bits).value - reach(bits).below) * pow10(
            head(reach(bits)) + digits_needed(reach(bits), 1),
        ) <= shown(reach(bits)) * divisor(reach(bits)),
        shown(reach(bits)) * divisor(reach(bits)) <= (reach(bits).value + reach(bits).above)
            * pow10(head(reach(bits)) + digits_needed(reach(bits), 1)),
{
    lemma_reach(bits);
    lemma_nine_digits(reach(bits));
    lemma_shown_in_reach(reach(bits));
}

/// The parts of a reach as wide numbers.
struct Parts {
    value: Wide,
    below: Wide,
    above: Wide,
    scale: Wide,
    closed: bool,
}

impl Parts {
    /// The reach that the parts make.
    spec fn reach(self) -> Reach {
        Reach {
            value: self.value@,
            below: self.below@,
            above: self.above@,
            scale: self.scale@,
            closed: self.closed,
        }
    }

    /// Whether the parts are those of a number above zero, small enough to
    /// be worked with: the number is at least its distance to either
    /// neighbour, and a thousand times neither its top nor its scale leaves
    /// the range of wide numbers.
    spec fn fit(self) -> bool {
        &&& 0 < self.below@ <= self.value@
        &&& 0 < self.above@ <= self.value@
        &&& 0 < self.scale@
        &&& 1000 * (self.value@ + self.above@) < limit()
        &&& 1000 * self.scale@ < limit()
    }
}

/// The value of 2<sup>192</sup>.
proof fn lemma_limit()
    ensures
        limit() == pow2(192),
        limit() == 0x1_0000_0000_0000_0000_0000_0000_0000_0000_0000_0000_0000_0000,
{
    lemma2_to64_rest();
    lemma_pow2_adds(64, 64);
    lemma_pow2_adds(128, 64);
    assert(LIMB * LIMB * LIMB == 0x1_0000_0000_0000_0000_0000_0000_0000_0000_0000_0000_0000_0000)
        by (nonlinear_arith);
}

/// Whether `h` gets as far as `s`.
fn reaches(h: &Wide, s: &Wide, closed: bool) -> (out: bool)
    ensures
        out == gets_to(h@, s@, closed),
{
    if closed {
        !h.is_below(s)
    } else {
        s.is_below(h)
    }
}

/// The reach of the number that a pattern above zero holds.
fn parts_of(bits: u32) -> (out: Parts)
    requires
        0 < bits <= crate::area::MAX_FINITE,
    ensures
        out.reach() == reach(bits),
        out.fit(),
{
    let field = bits / FRACTIONS;
    let fraction = bits % FRACTIONS;
    proof {
        lemma_limit();
        lemma2_to64();
        lemma2_to64_rest();
        lemma_two_to_128();
    }
    if field == 0 {
        proof {
            lemma_pow2_adds(128, 22);
            lemma_pow2_strictly_increases(150, 160);
            lemma_pow2_adds(128, 32);
        }
        Parts {
            value: Wide::from(2 * fraction as u128),
            below: Wide::from(1),
            above: Wide::from(1),
            scale: Wide::power_of_two(150),
            closed: true,
        }
    } else {
        let foot = fraction == 0;
        let value: u128 = if foot {
            4 * FRACTIONS as u128
        } else {
            2 * (FRACTIONS as u128 + fraction as u128)
        };
        let above: u128 = if foot {
            2
        } else {
            1
        };
        let closed = fraction % 2 == 0;
        let base: u32 = if foot {
            152
        } else {
            151
        };
        if field >= base {
            let unit = power_of_two(field - base);
            proof {
                if foot {
                    lemma_pow2_adds(25, 102);
                    lemma_pow2_strictly_increases(127, 128);
                    if field - base < 102 {
                        lemma_pow2_strictly_increases((field - base) as nat, 102);
                    }
                    assert(value * unit <= pow2(25) * pow2(102)) by (nonlinear_arith)
                        requires
                            value == pow2(25),
                            unit <= pow2(102),
                    ;
                } else {
                    lemma_pow2_adds(25, 103);
                    lemma_pow2_pos(103);
                    if field - base < 103 {
                        lemma_pow2_strictly_increases((field - base) as nat, 103);
                    }
                    assert(value * unit <= (pow2(25) - 2) * pow2(103)) by (nonlinear_arith)
                        requires
                            value <= pow2(25) - 2,
                            unit <= pow2(103),
                            0 <= unit,
                            0 <= value,
                    ;
                    assert((pow2(25) - 2) * pow2(103) < pow2(128)) by (nonlinear_arith)
                        requires
                            pow2(25) * pow2(103) == pow2(128),
                            pow2(103) > 0,
                    ;
                }
                assert(above * unit <= value * unit && unit <= value * unit) by (nonlinear_arith)
                    requires
                        1 <= above <= value,
                        0 <= unit,
                ;
                assert(1000 * (value * unit + above * unit) < limit()) by (nonlinear_arith)
                    requires
                        value * unit <= u128::MAX,
                        above * unit <= value * unit,
                        limit() == 0x1_0000_0000_0000_0000_0000_0000_0000_0000_0000_0000_0000_0000,
                ;
            }
            Parts {
                value: Wide::from(value * unit),
                below: Wide::from(unit),
                above: Wide::from(above * unit),
                scale: Wide::from(1),
                closed,
            }
        } else {
            proof {
                lemma_pow2_adds(128, 32);
                lemma_pow2_strictly_increases((base - field) as nat, 160);
                lemma_pow2_pos((base - field) as nat);
            }
            Parts {
                value: Wide::from(value),
                below: Wide::from(1),
                above: Wide::from(above),
                scale: Wide::power_of_two(base - field),
                closed,
            }
        }
    }
}

/// Taking a number tenfold raises the power of ten that it is scaled by.
proof fn lemma_pow10_step(x: nat, n: nat)
    ensures
        x * pow10(n + 1) == 10 * (x * pow10(n)),
        pow10(n + 1) == 10 * pow10(n),
        pow10(n) > 0,
    decreases n,
{
    if n > 0 {
        lemma_pow10_step(x, (n - 1) as nat);
    }
    assert(x * (10 * pow10(n)) == 10 * (x * pow10(n))) by (nonlinear_arith);
}

/// A power of ten is at least the power of two with three times the
/// exponent, and at most the one with four times the exponent.
proof fn lemma_pow10_bounds(n: nat)
    ensures
        pow2(3 * n) <= pow10(n) <= pow2(4 * n),
    decreases n,
{
    lemma2_to64();
    if n > 0 {
        lemma_pow10_bounds((n - 1) as nat);
        lemma_pow2_adds(3, 3 * (n - 1) as nat);
        lemma_pow2_adds(4, 4 * (n - 1) as nat);
    }
}

/// A power of ten within the range of wide numbers has an exponent below 64.
proof fn lemma_pow10_small(n: nat)
    requires
        pow10(n) < limit(),
    ensures
        n < 64,
{
    lemma_limit();
    lemma_pow10_bounds(n);
    if n >= 64 {
        if 3 * n > 192 {
            lemma_pow2_strictly_increases(192, 3 * n);
        }
    }
}

/// The digits to show for a reach: the digits as a number, their count, the
/// place of the first of them, and the power of ten that the parts were
/// scaled by.
fn shortest_digits(parts: &Parts) -> (out: (u128, u32, u32, u32))
    requires
        parts.fit(),
    ensures
        out.0 == shown(parts.reach()),
        out.1 == digits_needed(parts.reach(), 1),
        out.2 == places(parts.reach()),
        out.3 == head(parts.reach()),
        1 <= out.1 <= MOST_DIGITS,
        out.2 < 64,
        out.3 < 64,
{
    let ghost r = parts.reach();
    let closed = parts.closed;
    let scale = parts.scale;
    let top = parts.value.plus(&parts.above);
    proof {
        lemma_limit();
        lemma_pow10_step(r.scale, 0);
        assert(r.scale * pow10(0) == r.scale) by (nonlinear_arith)
            requires
                pow10(0) == 1,
        ;
    }
    let mut each = scale;
    let mut place: u32 = 0;
    while reaches(&top, &each, closed)
        invariant
            each@ == r.scale * pow10(place as nat),
            each@ > 0,
            r.scale > 0,
            tens_up(top@, r.scale, closed) == place + tens_up(top@, each@, closed),
            1000 * top@ < limit(),
            1000 * each@ < limit() || !gets_to(top@, each@, closed),
            each@ <= 10 * top@ || place == 0,
            place < 64,
        decreases
                (if top@ >= each@ {
                    top@ - each@ + 1
                } else {
                    0
                }),
    {
        proof {
            lemma_pow10_step(r.scale, place as nat);
            lemma_pow10_step(1, (place + 1) as nat);
            assert(pow10((place + 1) as nat) <= r.scale * pow10((place + 1) as nat))
                by (nonlinear_arith)
                requires
                    r.scale >= 1,
                    pow10((place + 1) as nat) > 0,
            ;
            lemma_pow10_small((place + 1) as nat);
        }
        each = each.times_ten();
        place += 1;
    }
    assert(place == places(r));
    assert(!gets_to(top@, each@, closed));
    assert(20 * each@ < limit());
    let mut value = parts.value;
    let mut below = parts.below;
    let mut above = parts.above;
    let mut raised: u32 = 0;
    proof {
        lemma_pow10_step(r.value, 0);
        lemma_pow10_step(r.below, 0);
        lemma_pow10_step(r.above, 0);
        lemma_pow10_step(top@, 0);
        assert(r.value * pow10(0) == r.value && r.below * pow10(0) == r.below && r.above * pow10(0)
            == r.above && top@ * pow10(0) == top@) by (nonlinear_arith)
            requires
                pow10(0) == 1,
        ;
    }
    if place == 0 {
        let mut next = top.times_ten();
        while !reaches(&next, &scale, closed)
            invariant
                place == 0,
                scale@ == r.scale,
                each@ == r.scale,
                1000 * r.scale < limit(),
                top@ == r.value + r.above,
                top@ > 0,
                next@ == top@ * pow10((raised + 1) as nat),
                value@ == r.value * pow10(raised as nat),
                below@ == r.below * pow10(raised as nat),
                above@ == r.above * pow10(raised as nat),
                !gets_to(top@ * pow10(raised as nat), r.scale, closed),
                tens_down(top@, r.scale, closed) == raised + 1 + tens_down(next@, r.scale, closed),
                0 < r.below <= r.value,
                0 < r.above <= r.value,
                raised < 64,
            decreases
                    (if next@ <= scale@ {
                        scale@ - next@ + 1
                    } else {
                        0
                    }),
        {
            proof {
                lemma_pow10_step(top@, (raised + 1) as nat);
                lemma_pow10_step(r.value, raised as nat);
                lemma_pow10_step(r.below, raised as nat);
                lemma_pow10_step(r.above, raised as nat);
                lemma_pow10_step(1, (raised + 1) as nat);
                let ten = pow10((raised + 1) as nat);
                assert(r.value * ten <= top@ * ten && r.below * ten <= top@ * ten && r.above * ten
                    <= top@ * ten && ten <= top@ * ten) by (nonlinear_arith)
                    requires
                        r.value <= top@,
                        r.below <= top@,
                        r.above <= top@,
                        1 <= top@,
                        ten > 0,
                ;
                lemma_pow10_small((raised + 1) as nat);
            }
            value = value.times_ten();
            below = below.times_ten();
            above = above.times_ten();
            raised += 1;
            next = next.times_ten();
        }
        assert(raised + 1 == lead(r));
        proof {
            let ten = pow10(raised as nat);
            lemma_pow10_step(1, raised as nat);
            assert(top@ * ten == r.value * ten + r.above * ten && r.below * ten <= r.value * ten
                && r.above * ten > 0) by (nonlinear_arith)
                requires
                    top@ == r.value + r.above,
                    0 < r.below <= r.value,
                    0 < r.above,
                    ten > 0,
            ;
        }
        assert(value@ < each@ && below@ <= each@ && above@ <= each@);
    } else {
        assert(value@ < each@ && below@ <= each@ && above@ <= each@);
    }
    assert(raised == head(r));
    let ghost lift = raised as nat;
    assert(each@ == divisor(r));
    let mut over = value;
    let mut taken: u128 = 0;
    let mut count: u32 = 0;
    let mut down = false;
    let mut up = false;
    proof {
        lemma2_to64();
        assert(0 * each@ + over@ == over@) by (nonlinear_arith);
    }
    while count < MOST_DIGITS && !down && !up
        invariant
            count <= MOST_DIGITS,
            closed == r.closed,
            lift == head(r),
            each@ == divisor(r),
            each@ > 0,
            20 * each@ < limit(),
            over@ < each@,
            r.value * pow10(lift + count as nat) == taken * each@ + over@,
            below@ == r.below * pow10(lift + count as nat),
            above@ == r.above * pow10(lift + count as nat),
            taken < pow10(count as nat),
            count == 0 ==> !down && !up,
            count > 0 ==> down == down_in_reach(r, count as nat) && up == up_in_reach(
                r,
                count as nat,
            ),
            count > 0 ==> taken == leading(r, count as nat) && over@ == rest(r, count as nat),
            count > 0 ==> digits_needed(r, 1) == digits_needed(r, count as nat),
            !down && !up ==> below@ <= each@ && above@ <= each@,
        decreases MOST_DIGITS - count,
    {
        let ghost before = over@;
        let ghost shown_before = taken;
        proof {
            lemma_pow10_step(r.value, lift + count as nat);
            lemma_pow10_step(r.below, lift + count as nat);
            lemma_pow10_step(r.above, lift + count as nat);
            lemma_pow10_step(1, count as nat);
            lemma_pow10_bounds((count + 1) as nat);
            lemma_pow2_strictly_increases(4 * (count + 1) as nat, 100);
            lemma_pow2_adds(64, 36);
            lemma2_to64();
            lemma2_to64_rest();
        }
        over = over.times_ten();
        below = below.times_ten();
        above = above.times_ten();
        let mut digit: u128 = 0;
        while !over.is_below(&each)
            invariant
                10 * before == digit * each@ + over@,
                before < each@,
                each@ > 0,
                digit <= 10,
            decreases over@,
        {
            proof {
                assert((digit + 1) * each@ == digit * each@ + each@) by (nonlinear_arith);
                assert(digit < 10) by (nonlinear_arith)
                    requires
                        10 * before == digit * each@ + over@,
                        before < each@,
                        over@ >= each@,
                        each@ > 0,
                ;
            }
            over = over.minus(&each);
            digit += 1;
        }
        proof {
            assert(digit <= 9) by (nonlinear_arith)
                requires
                    10 * before == digit * each@ + over@,
                    before < each@,
                    over@ >= 0,
                    each@ > 0,
                    digit <= 10,
            ;
        }
        taken = taken * 10 + digit;
        count += 1;
        proof {
            let a = r.value * pow10(lift + count as nat);
            assert(a == taken * each@ + over@) by (nonlinear_arith)
                requires
                    a == 10 * (shown_before * each@ + before),
                    10 * before == digit * each@ + over@,
                    taken == shown_before * 10 + digit,
            ;
            assert(a == each@ * taken + over@) by (nonlinear_arith)
                requires
                    a == taken * each@ + over@,
            ;
            lemma_fundamental_div_mod_converse(
                a as int,
                each@ as int,
                taken as int,
                over@ as int,
            );
        }
        down = reaches(&below, &over, closed);
        let covered = over.plus(&above);
        up = reaches(&covered, &each, closed);
    }
    proof {
        lemma_pow10_bounds(count as nat);
        lemma_pow2_strictly_increases(4 * count as nat, 100);
        lemma_pow2_adds(64, 36);
        lemma2_to64();
        lemma2_to64_rest();
    }
    let twice = over.plus(&over);
    let shown = if up && (!down || !twice.is_below(&each)) {
        taken + 1
    } else {
        taken
    };
    (shown, count, place, raised)
}

impl Area {
    /// The area as text, with as many digits as it takes to tell it from
    /// every other area, and no more.
    pub fn shortest_text(&self) -> (out: String)
        ensures
            out@ == shortest_text(self.bits()),
    {
        let bits = self.to_bits();
        if bits == 0 {
            return String::from_str("0");
        }
        let parts = parts_of(bits);
        let (shown, count, place, raised) = shortest_digits(&parts);
        let written = decimal(shown);
        proof {
            lemma_digits_ascii(shown as nat);
        }
        let length = written.as_str().unicode_len();
        let ahead = place as u128 + length as u128;
        let behind = raised as u128 + count as u128;
        if ahead <= behind {
            let mut out = String::from_str("0.");
            out.append(zeros(behind - ahead).as_str());
            out.append(written.as_str());
            out
        } else if ahead - behind < length as u128 {
            let point = (ahead - behind) as usize;
            let mut out = String::from_str(written.as_str().substring_ascii(0, point));
            out.append(".");
            out.append(written.as_str().substring_ascii(point, length));
            out
        } else {
            let mut out = written;
            out.append(zeros(ahead - behind - length as u128).as_str());
            out
        }
    }
}

} // verus!
