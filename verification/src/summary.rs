//! The summary of a list of countries: how many people live in an average
//! one, and which has the largest and which the smallest known area.

use crate::area::whole_text;
use crate::average::average_text;
use crate::shortest::shortest_text;
use crate::country::{Country, CountryView};
use vstd::prelude::*;
use vstd::string::*;

verus! {

/// Whether the country at `r` has the largest area of all, and is the last
/// of those that have it.
pub open spec fn is_biggest(countries: Seq<CountryView>, r: int) -> bool {
    &&& 0 <= r < countries.len()
    &&& forall|i: int| 0 <= i < countries.len() ==> (#[trigger] countries[i]).area <= countries[r].area
    &&& forall|i: int| r < i < countries.len() ==> (#[trigger] countries[i]).area < countries[r].area
}

/// Whether the country at `r` has the smallest of the areas that are known,
/// and is the last of those that have it.
pub open spec fn is_smallest(countries: Seq<CountryView>, r: int) -> bool {
    &&& 0 <= r < countries.len()
    &&& countries[r].area > 0
    &&& forall|i: int|
        0 <= i < countries.len() && (#[trigger] countries[i]).area > 0 ==> countries[r].area
            <= countries[i].area
    &&& forall|i: int|
        r < i < countries.len() && (#[trigger] countries[i]).area > 0 ==> countries[r].area
            < countries[i].area
}

/// Whether some country has a known area.
pub open spec fn some_area_known(countries: Seq<CountryView>) -> bool {
    exists|i: int| 0 <= i < countries.len() && (#[trigger] countries[i]).area > 0
}

/// The position of the country with the largest area, the last of them where
/// several have it; none in an empty list.
pub fn biggest_area_index(countries: &[Country]) -> (out: Option<usize>)
    ensures
        out is None <==> countries@.len() == 0,
        out matches Some(r) ==> is_biggest(countries.deep_view(), r as int),
{
    if countries.len() == 0 {
        return None;
    }
    let ghost views = countries.deep_view();
    let mut best: usize = 0;
    let mut i: usize = 1;
    while i < countries.len()
        invariant
            0 <= best < i <= countries.len(),
            views == countries.deep_view(),
            forall|j: int| 0 <= j < i ==> (#[trigger] views[j]).area <= views[best as int].area,
            forall|j: int| best < j < i ==> (#[trigger] views[j]).area < views[best as int].area,
        decreases countries.len() - i,
    {
        if !countries[i].area.is_below(&countries[best].area) {
            best = i;
        }
        i += 1;
    }
    Some(best)
}

/// The position of the country with the smallest known area, the last of
/// them where several have it; none where no area is known.
pub fn smallest_area_index(countries: &[Country]) -> (out: Option<usize>)
    ensures
        out is None <==> !some_area_known(countries.deep_view()),
        out matches Some(r) ==> is_smallest(countries.deep_view(), r as int),
{
    let ghost views = countries.deep_view();
    let mut best: Option<usize> = None;
    let mut i: usize = 0;
    while i < countries.len()
        invariant
            i <= countries.len(),
            views == countries.deep_view(),
            best is None ==> forall|j: int| 0 <= j < i ==> (#[trigger] views[j]).area == 0,
            best matches Some(r) ==> {
                &&& r < i
                &&& views[r as int].area > 0
                &&& forall|j: int|
                    0 <= j < i && (#[trigger] views[j]).area > 0 ==> views[r as int].area
                        <= views[j].area
                &&& forall|j: int|
                    r < j < i && (#[trigger] views[j]).area > 0 ==> views[r as int].area
                        < views[j].area
            },
        decreases countries.len() - i,
    {
        if countries[i].area.is_positive() {
            best = match best {
                Some(r) => if countries[r].area.is_below(&countries[i].area) {
                    Some(r)
                } else {
                    Some(i)
                },
                None => Some(i),
            };
        }
        i += 1;
    }
    best
}

/// The country with the largest area, the last of them where several have
/// it; none in an empty list.
pub fn get_biggest_area(countries: &[Country]) -> (out: Option<&Country>)
    ensures
        out is None <==> countries@.len() == 0,
        out matches Some(country) ==> exists|r: int|
            is_biggest(countries.deep_view(), r) && *country == countries@[r],
        out matches Some(country) ==> forall|i: int|
            0 <= i < countries@.len() ==> (#[trigger] countries@[i]).area@ <= country.area@,
{
    match biggest_area_index(countries) {
        Some(r) => {
            assert forall|i: int| 0 <= i < countries@.len() implies (#[trigger] countries@[i]).area@
                <= countries@[r as int].area@ by {
                assert(countries.deep_view()[i] == countries@[i]@);
            }
            Some(&countries[r])
        },
        None => None,
    }
}

/// The country with the smallest known area, the last of them where several
/// have it; none where no area is known.
pub fn get_smallest_area(countries: &[Country]) -> (out: Option<&Country>)
    ensures
        out is None <==> !some_area_known(countries.deep_view()),
        out matches Some(country) ==> exists|r: int|
            is_smallest(countries.deep_view(), r) && *country == countries@[r],
        out matches Some(country) ==> country.area@ > 0 && forall|i: int|
            0 <= i < countries@.len() && (#[trigger] countries@[i]).area@ > 0 ==> country.area@
                <= countries@[i].area@,
{
    match smallest_area_index(countries) {
        Some(r) => {
            assert forall|i: int|
                0 <= i < countries@.len() && (#[trigger] countries@[i]).area@ > 0 implies countries@[r as int].area@
                <= countries@[i].area@ by {
                assert(countries.deep_view()[i] == countries@[i]@);
            }
            Some(&countries[r])
        },
        None => None,
    }
}

/// The three lines of a summary: the average population, the country with
/// the largest area and that area without decimals, and the country with the
/// smallest known area and that area with as many digits as it takes.
pub open spec fn summary_text(average: Seq<char>, biggest: Country, smallest: Country) -> Seq<
    Seq<char>,
> {
    seq![
        "Average population: "@ + average + " mil"@,
        "Country with biggest area: "@ + biggest.name@ + " ("@ + whole_text(biggest.area@)
            + " sq mi)"@,
        "Country with smallest area: "@ + smallest.name@ + " ("@ + shortest_text(
            smallest.area.bits(),
        ) + " sq mi)"@,
    ]
}

/// Whether `lines` are the summary of `countries`.
pub open spec fn summarizes(lines: Seq<Seq<char>>, countries: &[Country]) -> bool {
    let views = countries.deep_view();
    exists|b: int, s: int|
        #![trigger countries@[b], countries@[s]]
        is_biggest(views, b) && is_smallest(views, s) && lines == summary_text(
            average_text(views),
            countries@[b],
            countries@[s],
        )
}

/// The lines that report an average population and the countries with the
/// largest and the smallest known area.
pub fn format_summary(average: &str, biggest: &Country, smallest: &Country) -> (out: Vec<String>)
    ensures
        out.deep_view() == summary_text(average@, *biggest, *smallest),
{
    let biggest_area = biggest.area.rounded_text();
    let smallest_area = smallest.area.shortest_text();
    let mut first = String::from_str("Average population: ");
    first.append(average);
    first.append(" mil");
    let mut second = String::from_str("Country with biggest area: ");
    second.append(biggest.name.as_str());
    second.append(" (");
    second.append(biggest_area.as_str());
    second.append(" sq mi)");
    let mut third = String::from_str("Country with smallest area: ");
    third.append(smallest.name.as_str());
    third.append(" (");
    third.append(smallest_area.as_str());
    third.append(" sq mi)");
    let mut out: Vec<String> = Vec::new();
    out.push(first);
    out.push(second);
    out.push(third);
    assert(out.deep_view() =~= summary_text(average@, *biggest, *smallest));
    out
}

} // verus!
