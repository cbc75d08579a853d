//! Countries grouped by the languages that are spoken in them.
//!
//! The groups stand in the order in which their languages first occur, and
//! the countries of a group in the order of the list they were taken from. A
//! country stands once in the group of each language it names, however often
//! it names it.

use crate::country::{country_names, names, Country, CountryView, Language};
use crate::text::{byte_count, byte_len, lemma_byte_count_ascii, lemma_widest, widest};
use vstd::string::*;
use vstd::prelude::*;

verus! {

/// A country of a group: its name and the people who live there.
pub type Member = (Seq<char>, u64);

/// A language and the countries in which it is spoken.
pub type Group = (Seq<char>, Seq<Member>);

/// The countries grouped by language, and the widths of the three columns
/// that show them.
pub struct LanguageTable {
    pub countries_column_width: usize,
    pub languages_column_width: usize,
    pub population_column_width: usize,
    pub languages: Vec<(String, Vec<(String, u64)>)>,
}

/// What a language table says.
pub struct LanguageTableView {
    pub countries_column_width: nat,
    pub languages_column_width: nat,
    pub population_column_width: nat,
    pub languages: Seq<Group>,
}

impl View for LanguageTable {
    type V = LanguageTableView;

    open spec fn view(&self) -> LanguageTableView {
        LanguageTableView {
            countries_column_width: self.countries_column_width as nat,
            languages_column_width: self.languages_column_width as nat,
            population_column_width: self.population_column_width as nat,
            languages: self.languages.deep_view(),
        }
    }
}

/// The place of the first of the first `n` groups that is named `language`.
pub open spec fn find(groups: Seq<Group>, language: Seq<char>, n: nat) -> Option<int>
    decreases n,
{
    if n == 0 {
        None
    } else {
        match find(groups, language, (n - 1) as nat) {
            Some(i) => Some(i),
            None => if groups[n - 1].0 == language {
                Some(n - 1)
            } else {
                None
            },
        }
    }
}

/// The groups after `member` is filed under `language`: at the end of the
/// group of that name, or in a new group behind the others.
pub open spec fn filed(groups: Seq<Group>, language: Seq<char>, member: Member) -> Seq<Group> {
    match find(groups, language, groups.len()) {
        Some(i) => groups.update(i, (language, groups[i].1.push(member))),
        None => groups.push((language, seq![member])),
    }
}

/// Whether the language at place `k` of a list is named earlier in the list.
pub open spec fn named_before(languages: Seq<Seq<char>>, k: int) -> bool {
    languages.take(k).contains(languages[k])
}

/// The groups after `country` is filed under the first `n` of its languages,
/// once under each: a language that the country names again is passed over.
pub open spec fn filed_country(groups: Seq<Group>, country: CountryView, n: nat) -> Seq<Group>
    decreases n,
{
    if n == 0 {
        groups
    } else if named_before(country.languages, n - 1) {
        filed_country(groups, country, (n - 1) as nat)
    } else {
        filed(
            filed_country(groups, country, (n - 1) as nat),
            country.languages[n - 1],
            (country.name, country.population),
        )
    }
}

/// The groups that the first `n` countries make.
pub open spec fn grouped(countries: Seq<CountryView>, n: nat) -> Seq<Group>
    decreases n,
{
    if n == 0 {
        Seq::empty()
    } else {
        filed_country(
            grouped(countries, (n - 1) as nat),
            countries[n - 1],
            countries[n - 1].languages.len(),
        )
    }
}

/// The width that holds the label of the languages column and every language
/// of the first `n` countries.
pub open spec fn languages_width(countries: Seq<CountryView>, n: nat) -> nat
    decreases n,
{
    if n == 0 {
        byte_count("languages"@)
    } else {
        widest(
            languages_width(countries, (n - 1) as nat),
            countries[n - 1].languages,
            countries[n - 1].languages.len(),
        )
    }
}

/// The language table of `countries`: their groups, a languages column as
/// wide as its label and the longest language, a countries column as wide as
/// its label and the longest country, and a population column as wide as its
/// label.
pub open spec fn language_table(countries: Seq<CountryView>) -> LanguageTableView {
    LanguageTableView {
        countries_column_width: widest(
            byte_count("countries"@),
            country_names(countries),
            countries.len(),
        ),
        languages_column_width: languages_width(countries, countries.len()),
        population_column_width: byte_count("population"@),
        languages: grouped(countries, countries.len()),
    }
}

/// The people of the first `n` members of a group together.
pub open spec fn member_sum(members: Seq<Member>, n: nat) -> nat
    decreases n,
{
    if n == 0 {
        0
    } else {
        member_sum(members, (n - 1) as nat) + members[n - 1].1 as nat
    }
}

/// The countries filed under `language`: those of the first group of that
/// name, or none where there is no such group.
pub open spec fn members_of(groups: Seq<Group>, language: Seq<char>) -> Seq<Member> {
    match find(groups, language, groups.len()) {
        Some(i) => groups[i].1,
        None => Seq::empty(),
    }
}

/// Whether `language` is among the languages of `country`.
pub open spec fn speaks(country: CountryView, language: Seq<char>) -> bool {
    country.languages.contains(language)
}

/// Those of the first `n` countries that speak `language`, each with its
/// people, in the order of the list.
pub open spec fn speakers(countries: Seq<CountryView>, language: Seq<char>, n: nat) -> Seq<Member>
    decreases n,
{
    if n == 0 {
        Seq::empty()
    } else if speaks(countries[n - 1], language) {
        speakers(countries, language, (n - 1) as nat).push(
            (countries[n - 1].name, countries[n - 1].population),
        )
    } else {
        speakers(countries, language, (n - 1) as nat)
    }
}

/// The people of those of the first `n` countries that speak `language`.
pub open spec fn speakers_population(
    countries: Seq<CountryView>,
    language: Seq<char>,
    n: nat,
) -> nat
    decreases n,
{
    if n == 0 {
        0
    } else if speaks(countries[n - 1], language) {
        speakers_population(countries, language, (n - 1) as nat) + countries[n - 1].population as nat
    } else {
        speakers_population(countries, language, (n - 1) as nat)
    }
}

/// Whether no two groups have one name and every group has a country.
pub open spec fn well_formed(groups: Seq<Group>) -> bool {
    &&& forall|i: int, j: int|
        #![trigger groups[i], groups[j]]
        0 <= i < j < groups.len() ==> groups[i].0 != groups[j].0
    &&& forall|i: int| 0 <= i < groups.len() ==> (#[trigger] groups[i]).1.len() > 0
}

/// The labels of the language table take 9, 9 and 10 bytes.
pub proof fn lemma_label_lengths()
    ensures
        byte_count("languages"@) == 9,
        byte_count("countries"@) == 9,
        byte_count("population"@) == 10,
{
    reveal_strlit("languages");
    reveal_strlit("countries");
    reveal_strlit("population");
    lemma_byte_count_ascii("languages"@);
    lemma_byte_count_ascii("countries"@);
    lemma_byte_count_ascii("population"@);
}

/// The first group of a name is found at its place, and no place is found
/// where no group has the name.
pub proof fn lemma_find(groups: Seq<Group>, language: Seq<char>, n: nat, k: int)
    requires
        n <= groups.len(),
        0 <= k <= n,
        forall|j: int| 0 <= j < k ==> (#[trigger] groups[j]).0 != language,
        k < n ==> groups[k].0 == language,
    ensures
        find(groups, language, n) == if k < n {
            Some(k)
        } else {
            None
        },
    decreases n,
{
    if n > 0 {
        if k < n {
            lemma_find(groups, language, (n - 1) as nat, if k < n - 1 {
                k
            } else {
                (n - 1) as int
            });
        } else {
            lemma_find(groups, language, (n - 1) as nat, (n - 1) as int);
        }
    }
}

/// What is found is the first group of the name, and nothing is found only
/// where no group has it.
pub proof fn lemma_found(groups: Seq<Group>, language: Seq<char>, n: nat)
    requires
        n <= groups.len(),
    ensures
        find(groups, language, n) matches Some(i) ==> 0 <= i < n && groups[i].0 == language
            && forall|j: int| 0 <= j < i ==> (#[trigger] groups[j]).0 != language,
        find(groups, language, n) is None ==> forall|j: int|
            0 <= j < n ==> (#[trigger] groups[j]).0 != language,
    decreases n,
{
    if n > 0 {
        lemma_found(groups, language, (n - 1) as nat);
    }
}

/// The sum over a list of members does not read what follows them.
proof fn lemma_member_sum_prefix(a: Seq<Member>, b: Seq<Member>, n: nat)
    requires
        n <= a.len(),
        n <= b.len(),
        forall|i: int| 0 <= i < n ==> a[i] == b[i],
    ensures
        member_sum(a, n) == member_sum(b, n),
    decreases n,
{
    if n > 0 {
        lemma_member_sum_prefix(a, b, (n - 1) as nat);
    }
}

/// Filing a member adds it to the countries of its language and leaves
/// those of every other language alone.
proof fn lemma_filed(groups: Seq<Group>, language: Seq<char>, member: Member, other: Seq<char>)
    ensures
        members_of(filed(groups, language, member), other) == if other == language {
            members_of(groups, other).push(member)
        } else {
            members_of(groups, other)
        },
        well_formed(groups) ==> well_formed(filed(groups, language, member)),
{
    let after = filed(groups, language, member);
    lemma_found(groups, language, groups.len());
    lemma_found(groups, other, groups.len());
    match find(groups, language, groups.len()) {
        Some(i) => {
            match find(groups, other, groups.len()) {
                Some(k) => {
                    lemma_find(after, other, after.len(), k);
                },
                None => {
                    lemma_find(after, other, after.len(), after.len() as int);
                },
            }
        },
        None => {
            match find(groups, other, groups.len()) {
                Some(k) => {
                    lemma_find(after, other, after.len(), k);
                },
                None => {
                    if other == language {
                        lemma_find(after, other, after.len(), groups.len() as int);
                        assert(seq![member] =~= Seq::<Member>::empty().push(member));
                    } else {
                        lemma_find(after, other, after.len(), after.len() as int);
                    }
                },
            }
        },
    }
}

/// Filing a country keeps the groups well formed.
proof fn lemma_filed_country_well_formed(groups: Seq<Group>, country: CountryView, n: nat)
    requires
        well_formed(groups),
    ensures
        well_formed(filed_country(groups, country, n)),
    decreases n,
{
    if n > 0 {
        lemma_filed_country_well_formed(groups, country, (n - 1) as nat);
        if !named_before(country.languages, n - 1) {
            lemma_filed(
                filed_country(groups, country, (n - 1) as nat),
                country.languages[n - 1],
                (country.name, country.population),
                country.languages[n - 1],
            );
        }
    }
}

/// The groups of a list of countries are well formed: no two have one name,
/// and each has a country.
pub proof fn lemma_grouped_well_formed(countries: Seq<CountryView>, n: nat)
    ensures
        well_formed(grouped(countries, n)),
    decreases n,
{
    if n > 0 {
        lemma_grouped_well_formed(countries, (n - 1) as nat);
        lemma_filed_country_well_formed(
            grouped(countries, (n - 1) as nat),
            countries[n - 1],
            countries[n - 1].languages.len(),
        );
    }
}

/// The languages column is as wide as its label and as every language of
/// the first `n` countries.
pub proof fn lemma_languages_width(countries: Seq<CountryView>, n: nat)
    requires
        n <= countries.len(),
    ensures
        languages_width(countries, n) >= byte_count("languages"@),
        forall|i: int, j: int|
            0 <= i < n && 0 <= j < countries[i].languages.len() ==> languages_width(countries, n)
                >= byte_count(#[trigger] countries[i].languages[j]),
    decreases n,
{
    if n > 0 {
        lemma_languages_width(countries, (n - 1) as nat);
        lemma_widest(
            languages_width(countries, (n - 1) as nat),
            countries[n - 1].languages,
            countries[n - 1].languages.len(),
        );
    }
}

/// Filing a country under its languages adds it once to each of them,
/// however often it names one, and to no other.
proof fn lemma_filed_country(groups: Seq<Group>, country: CountryView, n: nat, other: Seq<char>)
    requires
        n <= country.languages.len(),
    ensures
        members_of(filed_country(groups, country, n), other) == if country.languages.take(
            n as int,
        ).contains(other) {
            members_of(groups, other).push((country.name, country.population))
        } else {
            members_of(groups, other)
        },
    decreases n,
{
    if n > 0 {
        let earlier = country.languages.take(n - 1);
        let language = country.languages[n - 1];
        let all = country.languages.take(n as int);
        lemma_filed_country(groups, country, (n - 1) as nat, other);
        assert(all =~= earlier.push(language));
        assert(all[n - 1] == language);
        if earlier.contains(other) {
            let k = choose|k: int| 0 <= k < earlier.len() && earlier[k] == other;
            assert(all[k] == other);
        }
        if all.contains(other) && other != language {
            let k = choose|k: int| 0 <= k < all.len() && all[k] == other;
            assert(earlier[k] == other);
        }
        if !named_before(country.languages, n - 1) {
            lemma_filed(
                filed_country(groups, country, (n - 1) as nat),
                language,
                (country.name, country.population),
                other,
            );
        }
    } else {
        assert(country.languages.take(0).len() == 0);
    }
}

/// The group of a language holds exactly the countries that speak it, in
/// the order of the list; a language that none speaks has no group.
pub proof fn lemma_grouped(countries: Seq<CountryView>, n: nat, language: Seq<char>)
    requires
        n <= countries.len(),
    ensures
        members_of(grouped(countries, n), language) == speakers(countries, language, n),
    decreases n,
{
    if n > 0 {
        let country = countries[n - 1];
        lemma_grouped(countries, (n - 1) as nat, language);
        lemma_filed_country(
            grouped(countries, (n - 1) as nat),
            country,
            country.languages.len(),
            language,
        );
        assert(country.languages.take(country.languages.len() as int) =~= country.languages);
    }
}

/// The people of a list of speakers are the people of the countries that
/// speak the language.
proof fn lemma_speakers_sum(countries: Seq<CountryView>, language: Seq<char>, n: nat)
    requires
        n <= countries.len(),
    ensures
        member_sum(speakers(countries, language, n), speakers(countries, language, n).len())
            == speakers_population(countries, language, n),
    decreases n,
{
    if n > 0 {
        lemma_speakers_sum(countries, language, (n - 1) as nat);
        let earlier = speakers(countries, language, (n - 1) as nat);
        if speaks(countries[n - 1], language) {
            lemma_member_sum_prefix(
                earlier,
                speakers(countries, language, n),
                earlier.len(),
            );
        }
    }
}

/// In the table of a list of countries, the group at place `i` holds the
/// countries that speak its language, each once and in the order of the list,
/// and its total is the sum of their people.
pub proof fn lemma_language_totals(countries: Seq<CountryView>, i: int)
    requires
        0 <= i < language_table(countries).languages.len(),
    ensures
        ({
            let group = language_table(countries).languages[i];
            &&& group.1 == speakers(countries, group.0, countries.len())
            &&& member_sum(group.1, group.1.len()) == speakers_population(
                countries,
                group.0,
                countries.len(),
            )
        }),
{
    let groups = grouped(countries, countries.len());
    let language = groups[i].0;
    lemma_grouped_well_formed(countries, countries.len());
    lemma_grouped(countries, countries.len(), language);
    lemma_find(groups, language, groups.len(), i);
    lemma_speakers_sum(countries, language, countries.len());
}

/// Files a country of `population` people under `language`.
fn file(
    groups: &mut Vec<(String, Vec<(String, u64)>)>,
    language: &String,
    country: &String,
    population: u64,
)
    ensures
        final(groups).deep_view() == filed(
            old(groups).deep_view(),
            language@,
            (country@, population),
        ),
{
    let ghost before = groups.deep_view();
    let ghost after = filed(before, language@, (country@, population));
    let ghost held = groups@;
    let mut k: usize = 0;
    while k < groups.len() && groups[k].0 != *language
        invariant
            k <= groups.len(),
            groups@ == held,
            groups.deep_view() == before,
            forall|j: int| 0 <= j < k ==> (#[trigger] before[j]).0 != language@,
        decreases groups.len() - k,
    {
        k += 1;
    }
    proof {
        lemma_find(before, language@, before.len(), k as int);
    }
    if k < groups.len() {
        groups[k].1.push((country.clone(), population));
        assert(groups@[k as int].1.deep_view() =~= before[k as int].1.push((country@, population)));
    } else {
        let mut members: Vec<(String, u64)> = Vec::new();
        members.push((country.clone(), population));
        assert(members.deep_view() =~= seq![(country@, population)]);
        groups.push((language.clone(), members));
    }
    assert forall|j: int| 0 <= j < after.len() implies groups.deep_view()[j] == after[j] by {
        if j != k {
            assert(groups@[j] == held[j]);
        }
    }
    assert(groups.deep_view() =~= after);
}

/// Whether the language at place `k` is named earlier in the list.
fn is_named_before(languages: &Vec<Language>, k: usize) -> (out: bool)
    requires
        k < languages@.len(),
    ensures
        out == named_before(names(languages@), k as int),
{
    let ghost earlier = names(languages@).take(k as int);
    let mut i: usize = 0;
    while i < k
        invariant
            i <= k < languages@.len(),
            earlier == names(languages@).take(k as int),
            forall|j: int| 0 <= j < i ==> earlier[j] != names(languages@)[k as int],
        decreases k - i,
    {
        if languages[i].name == languages[k].name {
            assert(earlier[i as int] == names(languages@)[k as int]);
            return true;
        }
        i += 1;
    }
    false
}

impl LanguageTable {
    /// Groups `countries` by language and measures the columns. A country is
    /// filed once under each language it names.
    pub fn from_countries(countries: &[Country]) -> (out: LanguageTable)
        ensures
            out@ == language_table(countries.deep_view()),
            well_formed(out@.languages),
            forall|i: int|
                0 <= i < out@.languages.len() ==> (#[trigger] out@.languages[i]).1 == speakers(
                    countries.deep_view(),
                    out@.languages[i].0,
                    countries@.len(),
                ),
            forall|i: int|
                0 <= i < out@.languages.len() ==> member_sum(
                    (#[trigger] out@.languages[i]).1,
                    out@.languages[i].1.len(),
                ) == speakers_population(
                    countries.deep_view(),
                    out@.languages[i].0,
                    countries@.len(),
                ),
            out.countries_column_width >= 9,
            out.languages_column_width >= 9,
            out.population_column_width == 10,
    {
        let ghost views = countries.deep_view();
        proof {
            lemma_label_lengths();
            lemma_grouped_well_formed(views, views.len());
            lemma_languages_width(views, views.len());
            lemma_widest(9, country_names(views), views.len());
            assert forall|i: int| 0 <= i < language_table(views).languages.len() implies ({
                let group = #[trigger] language_table(views).languages[i];
                &&& group.1 == speakers(views, group.0, views.len())
                &&& member_sum(group.1, group.1.len()) == speakers_population(
                    views,
                    group.0,
                    views.len(),
                )
            }) by {
                lemma_language_totals(views, i);
            }
        }
        let mut countries_column_width = byte_len("countries");
        let mut languages_column_width = byte_len("languages");
        let population_column_width = byte_len("population");
        let mut languages: Vec<(String, Vec<(String, u64)>)> = Vec::new();
        let mut i: usize = 0;
        while i < countries.len()
            invariant
                i <= countries.len(),
                views == countries.deep_view(),
                languages.deep_view() == grouped(views, i as nat),
                languages_column_width == languages_width(views, i as nat),
                countries_column_width == widest(
                    byte_count("countries"@),
                    country_names(views),
                    i as nat,
                ),
            decreases countries.len() - i,
        {
            let country = &countries[i];
            assert(views[i as int] == country@);
            let mut j: usize = 0;
            while j < country.languages.len()
                invariant
                    j <= country.languages.len(),
                    i < countries.len(),
                    views == countries.deep_view(),
                    views[i as int] == country@,
                    languages.deep_view() == filed_country(
                        grouped(views, i as nat),
                        country@,
                        j as nat,
                    ),
                    languages_column_width == widest(
                        languages_width(views, i as nat),
                        country@.languages,
                        j as nat,
                    ),
                decreases country.languages.len() - j,
            {
                let language = &country.languages[j];
                if !is_named_before(&country.languages, j) {
                    file(&mut languages, &language.name, &country.name, country.population);
                }
                let width = byte_len(language.name.as_str());
                if width > languages_column_width {
                    languages_column_width = width;
                }
                j += 1;
            }
            let width = byte_len(country.name.as_str());
            if width > countries_column_width {
                countries_column_width = width;
            }
            i += 1;
        }
        LanguageTable {
            countries_column_width,
            languages_column_width,
            population_column_width,
            languages,
        }
    }
}

} // verus!
