//! The people of an average country, in millions with one decimal, as
//! arithmetic in the double-precision format of IEEE 754 (binary64) gives it,
//! computed with integers only.
//!
//! The populations are added one after the other in the order of the list,
//! each as the nearest number of 53 significant bits and each sum rounded to
//! such a number again. The sum is divided by the number of countries and the
//! quotient by a million, both to 53 significant bits, and ten times the last
//! quotient is rounded to a whole number of tenths.

use crate::binary::{
    double, halvings, lemma_absorbs, lemma_double_parts, lemma_halvings, lemma_quotient,
    lemma_significand, quotient, quotient_by, quotient_shift, significand, tenths_at,
    tenths_of_double, to_double, LEAD, PRECISION,
};
use crate::country::{Country, CountryView};
use crate::millions::{lemma_million_shift, tenths_text, write_tenths, MILLION};
use crate::rounding::{lemma_nearest_error, lemma_nearest_small, nearest, power_of_two};
use vstd::arithmetic::mul::*;
use vstd::arithmetic::power2::*;
use vstd::prelude::*;

verus! {

/// The populations of a list of countries.
pub open spec fn populations(countries: Seq<CountryView>) -> Seq<u64> {
    Seq::new(countries.len(), |i: int| countries[i].population)
}

/// The first `n` of `values` added up one after the other, each of them and
/// each sum as the nearest number of 53 significant bits.
pub open spec fn sum_of_doubles(values: Seq<u64>, n: nat) -> nat
    decreases n,
{
    if n == 0 {
        0
    } else {
        double(sum_of_doubles(values, (n - 1) as nat) + double(values[n - 1] as nat))
    }
}

/// The average of `values` in tenths of a million: their sum divided by
/// their number and by a million, times ten, to a whole number.
pub open spec fn average_tenths(values: Seq<u64>) -> nat {
    let sum = sum_of_doubles(values, values.len());
    let each = quotient(significand(sum), significand(values.len()));
    let first = quotient_shift(significand(sum), significand(values.len()));
    let per_million = quotient(each, MILLION as nat);
    let second = quotient_shift(each, MILLION as nat);
    tenths_at(per_million, halvings(sum), halvings(values.len()) + first + second)
}

/// The average population of `countries` in millions, written with one
/// decimal.
pub open spec fn average_text(countries: Seq<CountryView>) -> Seq<char> {
    tenths_text(average_tenths(populations(countries)))
}

/// The first `n` of `values` added up.
pub open spec fn total(values: Seq<u64>, n: nat) -> nat
    decreases n,
{
    if n == 0 {
        0
    } else {
        total(values, (n - 1) as nat) + values[n - 1] as nat
    }
}

/// Numbers whose sum has no more than 53 bits add up without rounding.
pub proof fn lemma_sum_exact(values: Seq<u64>, n: nat)
    requires
        n <= values.len(),
        total(values, n) < PRECISION,
    ensures
        sum_of_doubles(values, n) == total(values, n),
    decreases n,
{
    if n > 0 {
        lemma_sum_exact(values, (n - 1) as nat);
        lemma_unrounded(values[n - 1] as nat);
        lemma_unrounded(total(values, n));
    }
}

/// A number of no more than 53 bits is a number of 53 significant bits.
proof fn lemma_unrounded(n: nat)
    requires
        n < PRECISION,
    ensures
        double(n) == n,
        halvings(n) == 0,
        significand(n) == n,
{
    lemma2_to64();
    lemma_significand(n);
    assert(n * 1 == n) by (nonlinear_arith);
}

/// The tenths shown for an average are the sum divided by the number of
/// countries, in tenths of a million, to within one. This is stated of lists
/// whose sum and whose length have no more than 53 bits, so that nothing is
/// rounded before the division.
pub proof fn lemma_average_near(values: Seq<u64>)
    requires
        0 < values.len() < PRECISION,
        total(values, values.len()) < PRECISION,
    ensures
        average_tenths(values) * (100_000 * values.len()) <= total(values, values.len()) + 100_000
            * values.len(),
        total(values, values.len()) <= average_tenths(values) * (100_000 * values.len())
            + 100_000 * values.len(),
{
    let sum = total(values, values.len());
    let count = values.len();
    lemma2_to64();
    lemma2_to64_rest();
    lemma_sum_exact(values, values.len());
    lemma_unrounded(sum);
    lemma_unrounded(count);
    let a = pow2(quotient_shift(sum, count));
    let each = quotient(sum, count);
    let second = quotient_shift(each, MILLION as nat);
    let b = pow2(second);
    let per_million = quotient(each, MILLION as nat);
    let t = average_tenths(values);
    lemma_pow2_pos(quotient_shift(sum, count));
    lemma_pow2_pos(second);
    lemma_quotient(sum, count);
    lemma_quotient(each, MILLION as nat);
    if sum == 0 {
        assert(t == 0) by {
            lemma_pow2_pos(quotient_shift(sum, count) + second);
            lemma_nearest_small(0, pow2(quotient_shift(sum, count) + second));
            assert(10 * 0nat * pow2(0) == 0) by (nonlinear_arith);
        }
        assert(0 * (100_000 * count) == 0) by (nonlinear_arith);
    } else {
        assert(b >= 500_000) by (nonlinear_arith)
            requires
                each * b >= LEAD * MILLION,
                each <= PRECISION,
                PRECISION == 2 * LEAD,
                each > 0,
        ;
        lemma_million_shift(second);
        lemma_pow2_adds(quotient_shift(sum, count), second);
        let c = count;
        let q1 = each;
        let q2 = per_million;
        let ab = a * b;
        assert(ab > 0 && ab >= b) by (nonlinear_arith)
            requires
                a >= 1,
                b > 0,
                ab == a * b,
        ;
        lemma_nearest_error(sum * a, c);
        lemma_nearest_error(q1 * b, MILLION as nat);
        lemma_nearest_error(10 * q2, ab);
        assert(t == nearest(10 * q2, ab));
        // every product that the three roundings meet in, by name
        let ct = c * (t * ab);
        let cq2 = c * q2;
        let cq1b = c * (q1 * b);
        let sab = sum * ab;
        let cab = c * ab;
        let cb = c * b;
        assert(2 * ct <= 20 * cq2 + cab && 20 * cq2 <= 2 * ct + cab) by (nonlinear_arith)
            requires
                2 * (t * ab) <= 2 * (10 * q2) + ab,
                2 * (10 * q2) <= 2 * (t * ab) + ab,
                ct == c * (t * ab),
                cq2 == c * q2,
                cab == c * ab,
        ;
        assert(2 * (1_000_000 * cq2) <= 2 * cq1b + 1_000_000 * c && 2 * cq1b <= 2 * (1_000_000
            * cq2) + 1_000_000 * c) by (nonlinear_arith)
            requires
                2 * (q2 * 1_000_000) <= 2 * (q1 * b) + 1_000_000,
                2 * (q1 * b) <= 2 * (q2 * 1_000_000) + 1_000_000,
                cq2 == c * q2,
                cq1b == c * (q1 * b),
        ;
        assert(2 * cq1b <= 2 * sab + cb && 2 * sab <= 2 * cq1b + cb) by (nonlinear_arith)
            requires
                2 * (q1 * c) <= 2 * (sum * a) + c,
                2 * (sum * a) <= 2 * (q1 * c) + c,
                cq1b == c * (q1 * b),
                sab == sum * ab,
                ab == a * b,
                cb == c * b,
        ;
        assert(cb + 1_000_000 * c <= 100_000 * cab) by (nonlinear_arith)
            requires
                cb == c * b,
                cab == c * ab,
                ab >= b,
                b >= 500_000,
        ;
        let shown = t * (100_000 * c);
        assert(100_000 * ct == ab * shown && 100_000 * cab == ab * (100_000 * c)) by (nonlinear_arith)
            requires
                ct == c * (t * ab),
                shown == t * (100_000 * c),
                cab == c * ab,
        ;
        assert(sab == ab * sum) by (nonlinear_arith)
            requires
                sab == sum * ab,
        ;
        assert(ab * shown <= ab * (sum + 100_000 * c) && ab * sum <= ab * (shown + 100_000 * c))
            by (nonlinear_arith)
            requires
                2 * (ab * shown) <= 2 * (ab * sum) + 2 * (ab * (100_000 * c)),
                2 * (ab * sum) <= 2 * (ab * shown) + 2 * (ab * (100_000 * c)),
        ;
        assert(shown <= sum + 100_000 * c && sum <= shown + 100_000 * c) by (nonlinear_arith)
            requires
                ab * shown <= ab * (sum + 100_000 * c),
                ab * sum <= ab * (shown + 100_000 * c),
                ab > 0,
        ;
    }
}

/// The populations of `countries` added up one after the other: the
/// significand of the sum and the power of two that it counts.
fn add_populations(countries: &[Country]) -> (out: (u128, u32))
    ensures
        out.0 == significand(
            sum_of_doubles(populations(countries.deep_view()), countries@.len()),
        ),
        out.1 == halvings(sum_of_doubles(populations(countries.deep_view()), countries@.len())),
        out.0 < PRECISION,
        out.1 <= 67,
{
    let ghost values = populations(countries.deep_view());
    let mut m: u128 = 0;
    let mut k: u32 = 0;
    let mut i: usize = 0;
    proof {
        lemma2_to64();
        lemma2_to64_rest();
        assert(0 * pow2(0) == 0) by (nonlinear_arith);
    }
    while i < countries.len()
        invariant
            i <= countries.len(),
            values == populations(countries.deep_view()),
            m * pow2(k as nat) == sum_of_doubles(values, i as nat),
            m < PRECISION,
            k > 0 ==> m >= LEAD,
            k <= 67,
        decreases countries.len() - i,
    {
        let people = countries[i].population as u128;
        let (part, scale) = to_double(people);
        proof {
            lemma2_to64();
            lemma2_to64_rest();
            assert(values[i as int] == countries@[i as int].population);
            lemma_pow2_adds(53, 11);
            lemma_halvings(people as nat, 11);
            if scale < 11 {
                lemma_pow2_strictly_increases(scale as nat, 11);
            }
            lemma_mul_upper_bound(
                part as int,
                PRECISION as int,
                pow2(scale as nat) as int,
                pow2(11) as int,
            );
        }
        let addend = part * power_of_two(scale);
        assert(addend == double(people as nat));
        assert(addend <= 0x1_0000_0000_0000_0000);
        if k <= 65 {
            proof {
                lemma_pow2_adds(53, 65);
                lemma_pow2_adds(53, 66);
                lemma_pow2_adds(54, 64);
                if k < 65 {
                    lemma_pow2_strictly_increases(k as nat, 65);
                }
                lemma_mul_upper_bound(
                    m as int,
                    PRECISION as int,
                    pow2(k as nat) as int,
                    pow2(65) as int,
                );
                lemma_pow2_unfold(119);
                lemma_pow2_strictly_increases(119, 128);
                crate::rounding::lemma_two_to_128();
                lemma_pow2_strictly_increases(64, 118);
                lemma_halvings((m * pow2(k as nat) + addend) as nat, 66);
            }
            let sum = m * power_of_two(k) + addend;
            let (kept, up) = to_double(sum);
            if kept == PRECISION {
                proof {
                    lemma_pow2_unfold((up + 1) as nat);
                    assert(PRECISION * pow2(up as nat) == LEAD * (2 * pow2(up as nat)))
                        by (nonlinear_arith)
                        requires
                            PRECISION == 2 * LEAD,
                    ;
                }
                m = LEAD;
                k = up + 1;
            } else {
                m = kept;
                k = up;
            }
        } else {
            proof {
                lemma_pow2_strictly_increases(65, k as nat);
                lemma_pow2_unfold(65);
                lemma_absorbs(m as nat, k as nat, addend as nat);
            }
        }
        i += 1;
    }
    proof {
        lemma2_to64_rest();
        lemma_double_parts(m as nat, k as nat);
    }
    (m, k)
}

/// The people of an average country in millions, written with one decimal;
/// none where there is no country.
pub fn get_avg_population(countries: &[Country]) -> (out: Option<String>)
    ensures
        out is None <==> countries@.len() == 0,
        out matches Some(text) ==> text@ == average_text(countries.deep_view()),
{
    if countries.len() == 0 {
        return None;
    }
    let (sum, up) = add_populations(countries);
    let (count, lost) = to_double(countries.len() as u128);
    let (each, first) = quotient_by(sum, count);
    let (per_million, second) = quotient_by(each, MILLION);
    proof {
        if per_million > 0 {
            lemma_million_shift(second as nat);
        }
    }
    Some(write_tenths(tenths_of_double(per_million, up, lost + first + second)))
}

} // verus!
