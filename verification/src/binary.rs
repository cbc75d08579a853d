//! Numbers of 53 significant bits, as the double-precision format of IEEE 754
//! (binary64) holds them, worked with integers only.
//!
//! Such a number is a natural number below 2<sup>53</sup>, its significand,
//! times a power of two. A count that takes more bits is rounded to the
//! nearest number that has them, and so is every quotient; a number half way
//! between two neighbours goes to the one whose significand is even.

use crate::rounding::{
    lemma_nearest_bounds, lemma_nearest_exact, lemma_nearest_small, lemma_two_to_128, nearest,
    power_of_two, round_to_nearest,
};
use vstd::arithmetic::div_mod::*;
use vstd::arithmetic::mul::*;
use vstd::arithmetic::power2::*;
use vstd::prelude::*;

verus! {

/// The first number that takes more than 53 bits, 2<sup>53</sup>.
pub const PRECISION: u128 = 0x20_0000_0000_0000;

/// The first number that takes 53 bits, 2<sup>52</sup>.
pub const LEAD: u128 = 0x10_0000_0000_0000;

/// How many low bits `n` has beyond 53.
pub open spec fn halvings(n: nat) -> nat
    decreases n,
{
    if n < PRECISION {
        0
    } else {
        1 + halvings(n / 2)
    }
}

/// How often `x` doubles before it reaches `floor`.
pub open spec fn doublings(x: nat, floor: nat) -> nat
    decreases
            (if x < floor {
                floor - x
            } else {
                0
            }),
{
    if x == 0 || x >= floor {
        0
    } else {
        1 + doublings(2 * x, floor)
    }
}

/// The 53 significant bits of `n`: the number itself is taken as this
/// significand times two to the power `halvings(n)`.
pub open spec fn significand(n: nat) -> nat {
    nearest(n, pow2(halvings(n)))
}

/// `n` as the nearest number of 53 significant bits.
pub open spec fn double(n: nat) -> nat {
    significand(n) * pow2(halvings(n))
}

/// The power of two that scales the significand `m` so that its quotient by
/// `d` has exactly 53 bits: it brings `m` up to 2<sup>52</sup> times `d`.
pub open spec fn quotient_shift(m: nat, d: nat) -> nat {
    doublings(m, LEAD as nat * d)
}

/// The 53 significant bits of `m` divided by `d`: the quotient is taken as
/// this significand divided by two to the power `quotient_shift(m, d)`.
pub open spec fn quotient(m: nat, d: nat) -> nat {
    nearest(m * pow2(quotient_shift(m, d)), d)
}

/// Ten times the number of significand `m`, scaled up by two to the power
/// `up` and down by two to the power `down`, rounded to a whole number.
pub open spec fn tenths_at(m: nat, up: nat, down: nat) -> nat {
    if up >= down {
        10 * m * pow2((up - down) as nat)
    } else {
        nearest(10 * m, pow2((down - up) as nat))
    }
}

/// A power of two below 2<sup>e</sup> has an exponent below `e`.
pub proof fn lemma_exponent_below(k: nat, e: nat)
    requires
        pow2(k) < pow2(e),
    ensures
        k < e,
{
    if k > e {
        lemma_pow2_strictly_increases(e, k);
    }
}

/// A number from 2<sup>52 + k</sup> up to 2<sup>53 + k</sup> has exactly `k`
/// bits beyond 53, and a smaller one has fewer.
pub proof fn lemma_halvings(n: nat, k: nat)
    requires
        n < pow2(53 + k),
    ensures
        halvings(n) <= k,
        k > 0 && n >= pow2(52 + k) ==> halvings(n) == k,
    decreases n,
{
    lemma2_to64_rest();
    if n >= PRECISION {
        if k == 0 {
            assert(false);
        }
        lemma_pow2_unfold(53 + k);
        lemma_pow2_unfold(52 + k);
        lemma_halvings(n / 2, (k - 1) as nat);
    } else if k > 1 {
        lemma_pow2_strictly_increases(53, 52 + k);
    }
}

/// Halving as often as `halvings` says leaves a number of 53 bits, which has
/// all of them where anything was halved away.
pub proof fn lemma_halved(n: nat)
    ensures
        n / pow2(halvings(n)) < pow2(53),
        halvings(n) > 0 ==> n / pow2(halvings(n)) >= pow2(52),
    decreases n,
{
    lemma2_to64();
    lemma2_to64_rest();
    let h = halvings(n);
    if n < PRECISION {
        assert(n / 1 == n);
    } else {
        lemma_halved(n / 2);
        lemma_pow2_unfold(h);
        lemma_pow2_pos((h - 1) as nat);
        lemma_div_denominator(n as int, 2, pow2((h - 1) as nat) as int);
        if h == 1 {
            assert(n / 2 >= pow2(52));
        }
    }
}

/// The significand of a number has at most 53 bits and one more, all of
/// them where the number had more than 53, and is zero for zero alone.
pub proof fn lemma_significand(n: nat)
    ensures
        significand(n) <= pow2(53),
        halvings(n) > 0 ==> significand(n) >= pow2(52),
        halvings(n) == 0 ==> significand(n) == n,
        n > 0 ==> significand(n) > 0,
{
    lemma2_to64();
    lemma2_to64_rest();
    lemma_halved(n);
    lemma_pow2_pos(halvings(n));
    lemma_nearest_bounds(n, pow2(halvings(n)));
    if halvings(n) == 0 {
        assert(n / 1 == n && n % 1 == 0);
        assert(nearest(n, 1) == n);
    }
}

/// A significand of 53 bits times a power of two is a number of 53
/// significant bits: rounding leaves it as it is.
pub proof fn lemma_double_parts(m: nat, k: nat)
    requires
        m < pow2(53),
        k > 0 ==> m >= pow2(52),
    ensures
        halvings(m * pow2(k)) == k,
        significand(m * pow2(k)) == m,
        double(m * pow2(k)) == m * pow2(k),
{
    lemma2_to64();
    lemma2_to64_rest();
    lemma_pow2_pos(k);
    if k == 0 {
        assert(m * 1 == m) by (nonlinear_arith);
        assert(nearest(m, 1) == m);
    } else {
        lemma_pow2_adds(53, k);
        lemma_pow2_adds(52, k);
        lemma_mul_strict_inequality(m as int, pow2(53) as int, pow2(k) as int);
        lemma_mul_inequality(pow2(52) as int, m as int, pow2(k) as int);
        lemma_halvings(m * pow2(k), k);
        lemma_nearest_exact(m, pow2(k));
    }
}

/// A number of 53 significant bits takes up a number that is less than half
/// its last bit: their sum rounds back to it.
pub proof fn lemma_absorbs(m: nat, k: nat, x: nat)
    requires
        pow2(52) <= m < pow2(53),
        k > 0,
        2 * x < pow2(k),
    ensures
        double(m * pow2(k) + x) == m * pow2(k),
{
    let unit = pow2(k);
    let y = m * unit + x;
    lemma_pow2_pos(k);
    lemma_pow2_adds(53, k);
    lemma_pow2_adds(52, k);
    assert(pow2(52) * unit <= y < pow2(53) * unit) by (nonlinear_arith)
        requires
            y == m * unit + x,
            pow2(52) <= m < pow2(53),
            2 * x < unit,
    ;
    lemma_halvings(y, k);
    lemma_fundamental_div_mod_converse(y as int, unit as int, m as int, x as int);
}

/// A number below the floor doubles into the window from the floor up to
/// twice the floor.
pub proof fn lemma_doublings(x: nat, floor: nat)
    requires
        0 < x < floor,
    ensures
        floor <= x * pow2(doublings(x, floor)) < 2 * floor,
    decreases floor - x,
{
    lemma2_to64();
    if 2 * x >= floor {
        assert(doublings(2 * x, floor) == 0);
        assert(x * pow2(1) == 2 * x) by (nonlinear_arith)
            requires
                pow2(1) == 2,
        ;
    } else {
        lemma_doublings(2 * x, floor);
        let d = doublings(2 * x, floor);
        lemma_pow2_unfold(d + 1);
        assert(x * pow2(d + 1) == (2 * x) * pow2(d)) by (nonlinear_arith)
            requires
                pow2(d + 1) == 2 * pow2(d),
        ;
    }
}

/// The quotient of a significand by a divisor has at most 53 bits and one
/// more, and all of them unless the significand is zero.
pub proof fn lemma_quotient(m: nat, d: nat)
    requires
        m <= pow2(53),
        d > 0,
    ensures
        quotient(m, d) <= pow2(53),
        m > 0 ==> quotient(m, d) >= pow2(52),
        m > 0 ==> m * pow2(quotient_shift(m, d)) >= pow2(52) * d,
        m == 0 ==> quotient(m, d) == 0,
{
    lemma2_to64();
    lemma2_to64_rest();
    let floor = LEAD as nat * d;
    let j = quotient_shift(m, d);
    let x = m * pow2(j);
    lemma_nearest_bounds(x, d);
    if m == 0 {
        assert(0 * pow2(j) == 0) by (nonlinear_arith);
        lemma_nearest_small(0, d);
    } else {
        if m < floor {
            lemma_doublings(m, floor);
        } else {
            assert(m * 1 == m) by (nonlinear_arith);
            assert(m <= 2 * floor) by (nonlinear_arith)
                requires
                    m <= 2 * LEAD,
                    floor == LEAD * d,
                    d >= 1,
            ;
        }
        assert(floor <= x <= 2 * floor);
        lemma_fundamental_div_mod(x as int, d as int);
        lemma_mod_bound(x as int, d as int);
        let q = x / d;
        let r = x % d;
        assert(q >= LEAD) by (nonlinear_arith)
            requires
                x == d * q + r,
                0 <= r < d,
                x >= LEAD * d,
        ;
        assert(q < 2 * LEAD || (q == 2 * LEAD && r == 0)) by (nonlinear_arith)
            requires
                x == d * q + r,
                0 <= r < d,
                x <= 2 * (LEAD * d),
        ;
    }
}

/// `n` as a number of 53 significant bits: its significand and the power of
/// two that the significand counts.
pub fn to_double(n: u128) -> (out: (u128, u32))
    ensures
        out.0 == significand(n as nat),
        out.1 == halvings(n as nat),
        out.0 <= PRECISION,
        out.1 <= 75,
        out.1 > 0 ==> out.0 >= LEAD,
        n > 0 ==> out.0 > 0,
{
    proof {
        lemma2_to64();
        lemma2_to64_rest();
        lemma_significand(n as nat);
    }
    let mut up: u32 = 0;
    let mut rest: u128 = n;
    while rest >= PRECISION
        invariant
            halvings(n as nat) == up + halvings(rest as nat),
            rest == n as nat / pow2(up as nat),
            up <= 75,
        decreases rest,
    {
        proof {
            lemma2_to64_rest();
            lemma_pow2_pos(up as nat);
            lemma_pow2_unfold((up + 1) as nat);
            lemma_div_denominator(n as int, pow2(up as nat) as int, 2);
            lemma_mul_is_commutative(pow2(up as nat) as int, 2);
            lemma_fundamental_div_mod(n as int, pow2(up as nat) as int);
            lemma_mod_bound(n as int, pow2(up as nat) as int);
            assert(pow2(53) * pow2(up as nat) <= n) by (nonlinear_arith)
                requires
                    n == pow2(up as nat) * rest + (n as int % pow2(up as nat) as int),
                    0 <= n as int % pow2(up as nat) as int,
                    rest >= pow2(53),
                    pow2(up as nat) > 0,
            ;
            lemma_pow2_adds(53, up as nat);
            lemma_two_to_128();
            lemma_exponent_below((53 + up) as nat, 128);
        }
        rest = rest / 2;
        up += 1;
    }
    (round_to_nearest(n, power_of_two(up)), up)
}

/// The quotient of the significand `m` by `d`, to 53 significant bits, and
/// the power of two by which `m` was scaled up for it.
pub fn quotient_by(m: u128, d: u128) -> (out: (u128, u32))
    requires
        m <= PRECISION,
        0 < d <= PRECISION,
    ensures
        out.0 == quotient(m as nat, d as nat),
        out.1 == quotient_shift(m as nat, d as nat),
        out.0 <= PRECISION,
        out.1 <= 105,
        m > 0 ==> out.0 >= LEAD,
        m > 0 ==> 2 * pow2(out.1 as nat) >= d,
        m == 0 ==> out.0 == 0,
{
    proof {
        lemma2_to64();
        lemma2_to64_rest();
        lemma_quotient(m as nat, d as nat);
        lemma_pow2_adds(52, 53);
        assert(LEAD * d <= pow2(105)) by (nonlinear_arith)
            requires
                d <= PRECISION,
                pow2(105) == LEAD * PRECISION,
        ;
        lemma_two_to_128();
        lemma_pow2_strictly_increases(106, 128);
        lemma_pow2_unfold(106);
    }
    let floor = LEAD * d;
    let mut scaled: u128 = m;
    let mut down: u32 = 0;
    while scaled != 0 && scaled < floor
        invariant
            floor == LEAD * d,
            floor <= pow2(105),
            2 * pow2(105) < u128::MAX,
            scaled == m * pow2(down as nat),
            doublings(m as nat, floor as nat) == down + doublings(scaled as nat, floor as nat),
            down <= 105,
        decreases
                (if scaled < floor {
                    floor - scaled
                } else {
                    0
                }),
    {
        proof {
            lemma_pow2_unfold((down + 1) as nat);
            lemma_mul_is_associative(m as int, pow2(down as nat) as int, 2);
            assert(pow2(down as nat) < pow2(105)) by (nonlinear_arith)
                requires
                    scaled == m * pow2(down as nat),
                    scaled < pow2(105),
                    m >= 1,
            ;
            lemma_exponent_below(down as nat, 105);
        }
        scaled = scaled * 2;
        down += 1;
    }
    proof {
        if m > 0 {
            assert(2 * pow2(down as nat) >= d) by (nonlinear_arith)
                requires
                    m * pow2(down as nat) >= LEAD * d,
                    m <= 2 * LEAD,
                    m > 0,
            ;
        }
    }
    (round_to_nearest(scaled, d), down)
}

/// Ten times the number of significand `m`, scaled up by two to the power
/// `up` and down by two to the power `down`, rounded to a whole number.
pub fn tenths_of_double(m: u128, up: u32, down: u32) -> (out: u128)
    requires
        m <= PRECISION,
        m > 0 ==> up <= down + 60,
    ensures
        out == tenths_at(m as nat, up as nat, down as nat),
{
    proof {
        lemma2_to64();
        lemma2_to64_rest();
    }
    if m == 0 {
        proof {
            if up >= down {
                assert(10 * 0nat * pow2((up - down) as nat) == 0) by (nonlinear_arith);
            } else {
                lemma_pow2_pos((down - up) as nat);
                lemma_nearest_small(0, pow2((down - up) as nat));
            }
        }
        0
    } else if up >= down {
        let grow = power_of_two(up - down);
        proof {
            if up - down < 60 {
                lemma_pow2_strictly_increases((up - down) as nat, 60);
            }
            assert(10 * m * grow <= u128::MAX) by (nonlinear_arith)
                requires
                    m <= PRECISION,
                    grow <= 0x1000_0000_0000_0000,
                    0 <= grow,
                    0 <= m,
            ;
        }
        10 * m * grow
    } else if down - up > 60 {
        proof {
            lemma_pow2_strictly_increases(60, (down - up) as nat);
            lemma_nearest_small(10 * m as nat, pow2((down - up) as nat));
        }
        0
    } else {
        round_to_nearest(10 * m, power_of_two(down - up))
    }
}

} // verus!
