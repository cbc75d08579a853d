//! Putting a list of countries in order: by name, by population or by area,
//! lowest first, countries that tie staying in the order they came in.

use crate::country::{Country, CountryView};
use vstd::prelude::*;
use vstd::utf8::*;

verus! {

/// What a list of countries can be ordered by.
#[derive(Clone, Copy, Debug, PartialEq, Eq, Structural)]
pub enum SortBy {
    Name,
    Population,
    Area,
}

/// How a list of countries is to be ordered: by what `sort_by` names, or not
/// at all where it names nothing.
#[derive(Clone, Copy, Debug, PartialEq, Eq, Structural)]
pub struct SortOptions {
    pub sort_by: Option<SortBy>,
}

/// What a country is placed by: its name in bytes of UTF-8, its population,
/// or its area in units of 2<sup>-149</sup>.
pub enum SortKey {
    Name(Seq<u8>),
    Population(u64),
    Area(nat),
}

/// Whether `a` comes before `b` in the order of the dictionary, given that
/// the two agree on their first `i` bytes.
pub open spec fn precedes_from(a: Seq<u8>, b: Seq<u8>, i: int) -> bool
    decreases a.len() - i,
{
    if i < 0 || i >= b.len() {
        false
    } else if i >= a.len() {
        true
    } else if a[i] != b[i] {
        a[i] < b[i]
    } else {
        precedes_from(a, b, i + 1)
    }
}

/// Whether `a` comes before `b` in the order of the dictionary: at the first
/// place where they differ `a` has the smaller byte, or `a` ends there and `b`
/// goes on.
pub open spec fn precedes(a: Seq<u8>, b: Seq<u8>) -> bool {
    precedes_from(a, b, 0)
}

/// The key that `by` reads in `country`.
pub open spec fn sort_key(by: SortBy, country: CountryView) -> SortKey {
    match by {
        SortBy::Name => SortKey::Name(encode_utf8(country.name)),
        SortBy::Population => SortKey::Population(country.population),
        SortBy::Area => SortKey::Area(country.area),
    }
}

/// Whether key `a` is lower than key `b`.
pub open spec fn lower(a: SortKey, b: SortKey) -> bool {
    match (a, b) {
        (SortKey::Name(a), SortKey::Name(b)) => precedes(a, b),
        (SortKey::Population(a), SortKey::Population(b)) => a < b,
        (SortKey::Area(a), SortKey::Area(b)) => a < b,
        _ => false,
    }
}

/// Whether no country of `s` stands behind one with a higher key.
pub open spec fn sorted(s: Seq<Country>, by: SortBy) -> bool {
    forall|i: int, j: int|
        #![trigger s[i], s[j]]
        0 <= i < j < s.len() ==> !lower(sort_key(by, s[j]@), sort_key(by, s[i]@))
}

/// The countries of `s` whose key is `key`, in the order they have in `s`.
pub open spec fn with_key(s: Seq<Country>, by: SortBy, key: SortKey) -> Seq<Country>
    decreases s.len(),
{
    if s.len() == 0 {
        Seq::empty()
    } else if sort_key(by, s.last()@) == key {
        with_key(s.drop_last(), by, key).push(s.last())
    } else {
        with_key(s.drop_last(), by, key)
    }
}

/// Whether `output` holds the countries of `input` in ascending order of
/// their keys, those of one key in the order they have in `input`.
pub open spec fn is_stable_sort(input: Seq<Country>, output: Seq<Country>, by: SortBy) -> bool {
    &&& output.len() == input.len()
    &&& sorted(output, by)
    &&& forall|key: SortKey| #[trigger] with_key(output, by, key) == with_key(input, by, key)
}

/// Whether `a` and `b` agree on their first `i` bytes.
pub open spec fn agree(a: Seq<u8>, b: Seq<u8>, i: int) -> bool {
    &&& 0 <= i <= a.len()
    &&& i <= b.len()
    &&& forall|j: int| 0 <= j < i ==> a[j] == b[j]
}

proof fn lemma_precedes_irreflexive(a: Seq<u8>, i: int)
    requires
        0 <= i,
    ensures
        !precedes_from(a, a, i),
    decreases a.len() - i,
{
    if i < a.len() {
        lemma_precedes_irreflexive(a, i + 1);
    }
}

proof fn lemma_precedes_transitive(a: Seq<u8>, b: Seq<u8>, c: Seq<u8>, i: int)
    requires
        0 <= i,
        precedes_from(a, b, i),
        precedes_from(b, c, i),
    ensures
        precedes_from(a, c, i),
    decreases a.len() - i,
{
    if i < a.len() && a[i] == b[i] && b[i] == c[i] {
        lemma_precedes_transitive(a, b, c, i + 1);
    }
}

proof fn lemma_precedes_total(a: Seq<u8>, b: Seq<u8>, i: int)
    requires
        agree(a, b, i),
        !precedes_from(a, b, i),
        !precedes_from(b, a, i),
    ensures
        a == b,
    decreases a.len() - i,
{
    if i < a.len() && i < b.len() {
        lemma_precedes_total(a, b, i + 1);
    } else {
        assert(a =~= b);
    }
}

/// The keys that one choice reads are in a strict total order.
pub proof fn lemma_key_order(by: SortBy, a: CountryView, b: CountryView, c: CountryView)
    ensures
        !lower(sort_key(by, a), sort_key(by, a)),
        lower(sort_key(by, a), sort_key(by, b)) && lower(sort_key(by, b), sort_key(by, c))
            ==> lower(sort_key(by, a), sort_key(by, c)),
        !lower(sort_key(by, a), sort_key(by, b)) && !lower(sort_key(by, b), sort_key(by, a))
            ==> sort_key(by, a) == sort_key(by, b),
{
    if by == SortBy::Name {
        let (x, y, z) = (encode_utf8(a.name), encode_utf8(b.name), encode_utf8(c.name));
        lemma_precedes_irreflexive(x, 0);
        if precedes(x, y) && precedes(y, z) {
            lemma_precedes_transitive(x, y, z, 0);
        }
        if !precedes(x, y) && !precedes(y, x) {
            lemma_precedes_total(x, y, 0);
        }
    }
}

/// Picking the countries of one key from two lists in a row is picking them
/// from each.
proof fn lemma_with_key_add(a: Seq<Country>, b: Seq<Country>, by: SortBy, key: SortKey)
    ensures
        with_key(a + b, by, key) == with_key(a, by, key) + with_key(b, by, key),
    decreases b.len(),
{
    if b.len() == 0 {
        assert(a + b =~= a);
        assert(with_key(a, by, key) + with_key(b, by, key) =~= with_key(a, by, key));
    } else {
        assert((a + b).drop_last() =~= a + b.drop_last());
        lemma_with_key_add(a, b.drop_last(), by, key);
        if sort_key(by, b.last()@) == key {
            assert(with_key(a, by, key) + with_key(b.drop_last(), by, key).push(b.last())
                =~= (with_key(a, by, key) + with_key(b.drop_last(), by, key)).push(b.last()));
        }
    }
}

/// A list without a country of some key gives none when those are picked.
proof fn lemma_with_key_none(s: Seq<Country>, by: SortBy, key: SortKey)
    requires
        forall|i: int| 0 <= i < s.len() ==> sort_key(by, (#[trigger] s[i])@) != key,
    ensures
        with_key(s, by, key) == Seq::<Country>::empty(),
    decreases s.len(),
{
    if s.len() > 0 {
        assert(sort_key(by, s[s.len() - 1]@) != key);
        assert forall|i: int| 0 <= i < s.drop_last().len() implies sort_key(
            by,
            (#[trigger] s.drop_last()[i])@,
        ) != key by {
            assert(s.drop_last()[i] == s[i]);
        }
        lemma_with_key_none(s.drop_last(), by, key);
    }
}

/// Placing `x` into a sorted list, behind the countries that are not higher
/// and before those that are, gives a sorted list in which the countries of
/// each key stand as they do when `x` comes last.
proof fn lemma_place(before: Seq<Country>, x: Country, j: int, by: SortBy)
    requires
        sorted(before, by),
        0 <= j <= before.len(),
        forall|q: int|
            0 <= q < j ==> !lower(sort_key(by, x@), sort_key(by, (#[trigger] before[q])@)),
        j < before.len() ==> lower(sort_key(by, x@), sort_key(by, before[j]@)),
    ensures
        sorted(before.take(j).push(x) + before.skip(j), by),
        forall|key: SortKey| #[trigger]
            with_key(before.take(j).push(x) + before.skip(j), by, key) == with_key(
                before.push(x),
                by,
                key,
            ),
{
    let head = before.take(j);
    let tail = before.skip(j);
    let after = head.push(x) + tail;
    assert forall|q: int| j <= q < before.len() implies lower(
        sort_key(by, x@),
        sort_key(by, (#[trigger] before[q])@),
    ) by {
        if q > j {
            assert(!lower(sort_key(by, before[q]@), sort_key(by, before[j]@)));
            lemma_key_order(by, x@, before[q]@, before[j]@);
            lemma_key_order(by, before[q]@, x@, before[j]@);
        }
    }
    assert forall|p: int, q: int| 0 <= p < q < after.len() implies !lower(
        sort_key(by, after[q]@),
        sort_key(by, after[p]@),
    ) by {
        if q < j {
            assert(after[p] == before[p] && after[q] == before[q]);
        } else if q == j {
            assert(after[p] == before[p]);
        } else if p == j {
            assert(after[q] == before[q - 1]);
            lemma_key_order(by, x@, before[q - 1]@, x@);
        } else if p < j {
            assert(after[p] == before[p] && after[q] == before[q - 1]);
        } else {
            assert(after[p] == before[p - 1] && after[q] == before[q - 1]);
        }
    }
    assert forall|key: SortKey| #[trigger]
        with_key(after, by, key) == with_key(before.push(x), by, key) by {
        lemma_with_key_add(head.push(x), tail, by, key);
        lemma_with_key_add(head, tail, by, key);
        assert(head + tail =~= before);
        assert(head.push(x).drop_last() =~= head);
        assert(before.push(x).drop_last() =~= before);
        if sort_key(by, x@) == key {
            assert forall|i: int| 0 <= i < tail.len() implies sort_key(by, (#[trigger] tail[i])@)
                != key by {
                assert(tail[i] == before[j + i]);
                lemma_key_order(by, x@, before[j + i]@, x@);
            }
            lemma_with_key_none(tail, by, key);
            assert(with_key(head, by, key) + Seq::<Country>::empty() =~= with_key(head, by, key));
            assert(with_key(head, by, key).push(x) + Seq::<Country>::empty() =~= with_key(
                head,
                by,
                key,
            ).push(x));
        }
    }
}

/// A country stands in a list as often as among the countries of its key.
proof fn lemma_count_with_key(s: Seq<Country>, by: SortBy, x: Country)
    ensures
        s.to_multiset().count(x) == with_key(s, by, sort_key(by, x@)).to_multiset().count(x),
    decreases s.len(),
{
    broadcast use vstd::seq_lib::group_to_multiset_ensures;

    let key = sort_key(by, x@);
    if s.len() == 0 {
        assert(s =~= Seq::<Country>::empty());
    } else {
        lemma_count_with_key(s.drop_last(), by, x);
        assert(s =~= s.drop_last().push(s.last()));
    }
}

/// A sorted list holds every country as often as the list it was made from.
pub proof fn lemma_sort_permutes(input: Seq<Country>, output: Seq<Country>, by: SortBy)
    requires
        is_stable_sort(input, output, by),
    ensures
        output.to_multiset() == input.to_multiset(),
{
    assert forall|x: Country| output.to_multiset().count(x) == input.to_multiset().count(x) by {
        lemma_count_with_key(input, by, x);
        lemma_count_with_key(output, by, x);
        assert(with_key(output, by, sort_key(by, x@)) == with_key(input, by, sort_key(by, x@)));
    }
    assert(output.to_multiset() =~= input.to_multiset());
}

/// In a list sorted by name, every name stands at or before the next in the
/// order of the dictionary.
pub proof fn lemma_sorted_by_name(input: Seq<Country>, output: Seq<Country>, i: int)
    requires
        is_stable_sort(input, output, SortBy::Name),
        0 <= i,
        i + 1 < output.len(),
    ensures
        !precedes(encode_utf8(output[i + 1]@.name), encode_utf8(output[i]@.name)),
{
    assert(!lower(
        sort_key(SortBy::Name, output[i + 1]@),
        sort_key(SortBy::Name, output[i]@),
    ));
}

/// In a list sorted by population, no country has more people than the
/// next.
pub proof fn lemma_sorted_by_population(input: Seq<Country>, output: Seq<Country>, i: int)
    requires
        is_stable_sort(input, output, SortBy::Population),
        0 <= i,
        i + 1 < output.len(),
    ensures
        output[i]@.population <= output[i + 1]@.population,
{
    assert(!lower(
        sort_key(SortBy::Population, output[i + 1]@),
        sort_key(SortBy::Population, output[i]@),
    ));
}

/// In a list sorted by area, no country is larger than the next.
pub proof fn lemma_sorted_by_area(input: Seq<Country>, output: Seq<Country>, i: int)
    requires
        is_stable_sort(input, output, SortBy::Area),
        0 <= i,
        i + 1 < output.len(),
    ensures
        output[i]@.area <= output[i + 1]@.area,
{
    assert(!lower(sort_key(SortBy::Area, output[i + 1]@), sort_key(SortBy::Area, output[i]@)));
}

/// Whether the bytes of `a` come before those of `b` in the order of the
/// dictionary.
pub fn bytes_precede(a: &[u8], b: &[u8]) -> (out: bool)
    ensures
        out == precedes(a@, b@),
{
    let mut i: usize = 0;
    while i < a.len() && i < b.len()
        invariant
            i <= a.len(),
            i <= b.len(),
            precedes(a@, b@) == precedes_from(a@, b@, i as int),
        decreases a.len() - i,
    {
        if a[i] != b[i] {
            return a[i] < b[i];
        }
        i += 1;
    }
    i < b.len()
}

/// Whether `a` is to stand before `b` for having the lower key.
pub fn comes_before(by: SortBy, a: &Country, b: &Country) -> (out: bool)
    ensures
        out == lower(sort_key(by, a@), sort_key(by, b@)),
{
    match by {
        SortBy::Name => bytes_precede(a.name.as_str().as_bytes(), b.name.as_str().as_bytes()),
        SortBy::Population => a.population < b.population,
        SortBy::Area => a.area.is_below(&b.area),
    }
}

/// Exchanges the country at place `i` with the one behind it.
fn swap_with_next(countries: &mut [Country], i: usize)
    requires
        i < usize::MAX,
        i + 1 < old(countries)@.len(),
    ensures
        final(countries)@ == old(countries)@.update(i as int, old(countries)@[i + 1]).update(
            i + 1,
            old(countries)@[i as int],
        ),
{
    let (left, right) = countries.split_at_mut(i + 1);
    let a = left.last_mut().unwrap();
    let b = right.first_mut().unwrap();
    core::mem::swap(a, b);
    assert(final(countries)@ =~= old(countries)@.update(i as int, old(countries)@[i + 1]).update(
        i + 1,
        old(countries)@[i as int],
    ));
}

/// Puts `countries` in ascending order of what the options name, or leaves
/// them as they are where they name nothing. Countries that tie keep the
/// order they came in.
pub fn sort_countries_by(countries: &mut [Country], options: &SortOptions)
    ensures
        match options.sort_by {
            Some(by) => is_stable_sort(old(countries)@, final(countries)@, by),
            None => final(countries)@ == old(countries)@,
        },
{
    let by = match options.sort_by {
        Some(by) => by,
        None => {
            return ;
        },
    };
    let ghost input = countries@;
    let mut i: usize = 0;
    assert(countries@.take(0) =~= input.take(0));
    while i < countries.len()
        invariant
            i <= countries.len(),
            countries@.len() == input.len(),
            sorted(countries@.take(i as int), by),
            forall|key: SortKey| #[trigger]
                with_key(countries@.take(i as int), by, key) == with_key(
                    input.take(i as int),
                    by,
                    key,
                ),
            countries@.skip(i as int) == input.skip(i as int),
        decreases countries.len() - i,
    {
        let ghost held = countries@;
        let ghost before = held.take(i as int);
        let ghost behind = held.skip(i + 1);
        let ghost x = held[i as int];
        assert(x == input[i as int]) by {
            assert(held.skip(i as int)[0] == input.skip(i as int)[0]);
        }
        assert(held =~= before.take(i as int).push(x) + before.skip(i as int) + behind);
        let mut j: usize = i;
        while j > 0 && comes_before(by, &countries[j], &countries[j - 1])
            invariant
                j <= i < countries.len(),
                countries@.len() == held.len(),
                before == held.take(i as int),
                sorted(before, by),
                countries@ == before.take(j as int).push(x) + before.skip(j as int) + behind,
                forall|q: int|
                    j <= q < i ==> lower(sort_key(by, x@), sort_key(by, (#[trigger] before[q])@)),
            decreases j,
        {
            swap_with_next(countries, j - 1);
            j -= 1;
            assert(countries@ =~= before.take(j as int).push(x) + before.skip(j as int) + behind);
        }
        proof {
            assert forall|q: int| 0 <= q < j implies !lower(
                sort_key(by, x@),
                sort_key(by, (#[trigger] before[q])@),
            ) by {
                assert(countries@[j as int] == x && countries@[j - 1] == before[j - 1]);
                if q < j - 1 {
                    assert(!lower(sort_key(by, before[j - 1]@), sort_key(by, before[q]@)));
                    lemma_key_order(by, x@, before[q]@, before[j - 1]@);
                    lemma_key_order(by, before[j - 1]@, x@, before[q]@);
                }
            }
            lemma_place(before, x, j as int, by);
            assert(countries@.take(i + 1) =~= before.take(j as int).push(x) + before.skip(
                j as int,
            ));
            assert(input.take(i + 1) =~= input.take(i as int).push(x));
            assert forall|q: int| i < q < input.len() implies #[trigger] countries@[q] == input[q] by {
                assert(held.skip(i as int)[q - i] == input.skip(i as int)[q - i]);
            }
            assert(countries@.skip(i + 1) =~= input.skip(i + 1));
            assert forall|key: SortKey| #[trigger]
                with_key(countries@.take(i + 1), by, key) == with_key(
                    input.take(i + 1),
                    by,
                    key,
                ) by {
                assert(with_key(before, by, key) == with_key(input.take(i as int), by, key));
                assert(before.push(x).drop_last() =~= before);
                assert(input.take(i as int).push(x).drop_last() =~= input.take(i as int));
            }
        }
        i += 1;
    }
    assert(countries@.take(i as int) =~= countries@);
    assert(input.take(i as int) =~= input);
}

} // verus!
