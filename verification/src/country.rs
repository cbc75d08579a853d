//! Countries as they arrive and as the tables read them.

use crate::area::Area;
use vstd::prelude::*;
use vstd::std_specs::cmp::PartialEqSpecImpl;
use vstd::std_specs::convert::FromSpecImpl;

verus! {

/// A language spoken in a country. Two languages are the same where their
/// names are.
#[derive(Debug)]
pub struct Language {
    pub name: String,
}

/// A country as it arrives: its area and its languages may be missing.
#[derive(Debug)]
pub struct CountryDTO {
    pub name: String,
    pub region: String,
    pub area: Option<Area>,
    pub population: u64,
    pub languages: Option<Vec<Language>>,
}

/// A country with every field in place. An area of zero stands for one that
/// is not known.
#[derive(Debug)]
pub struct Country {
    pub name: String,
    pub region: String,
    pub area: Area,
    pub population: u64,
    pub languages: Vec<Language>,
}

/// What a raw record says: texts as sequences of characters, the area in
/// units of 2<sup>-149</sup>.
pub struct CountryDTOView {
    pub name: Seq<char>,
    pub region: Seq<char>,
    pub area: Option<nat>,
    pub population: u64,
    pub languages: Option<Seq<Seq<char>>>,
}

/// What a country says: texts as sequences of characters, the area in units
/// of 2<sup>-149</sup>, the languages by their names.
pub struct CountryView {
    pub name: Seq<char>,
    pub region: Seq<char>,
    pub area: nat,
    pub population: u64,
    pub languages: Seq<Seq<char>>,
}

/// The names of a list of languages.
pub open spec fn names(languages: Seq<Language>) -> Seq<Seq<char>> {
    Seq::new(languages.len(), |i: int| languages[i].name@)
}

impl View for Language {
    type V = Seq<char>;

    open spec fn view(&self) -> Seq<char> {
        self.name@
    }
}

impl DeepView for Language {
    type V = Seq<char>;

    open spec fn deep_view(&self) -> Seq<char> {
        self.name@
    }
}

impl View for CountryDTO {
    type V = CountryDTOView;

    open spec fn view(&self) -> CountryDTOView {
        CountryDTOView {
            name: self.name@,
            region: self.region@,
            area: match self.area {
                Some(area) => Some(area@),
                None => None,
            },
            population: self.population,
            languages: match self.languages {
                Some(languages) => Some(names(languages@)),
                None => None,
            },
        }
    }
}

impl View for Country {
    type V = CountryView;

    open spec fn view(&self) -> CountryView {
        CountryView {
            name: self.name@,
            region: self.region@,
            area: self.area@,
            population: self.population,
            languages: names(self.languages@),
        }
    }
}

impl DeepView for Country {
    type V = CountryView;

    open spec fn deep_view(&self) -> CountryView {
        self@
    }
}

/// The names of a list of countries.
pub open spec fn country_names(countries: Seq<CountryView>) -> Seq<Seq<char>> {
    Seq::new(countries.len(), |i: int| countries[i].name)
}

/// The country that a raw record stands for: a missing area becomes zero, a
/// missing list of languages the empty list, and all else is kept.
pub open spec fn normalized(dto: CountryDTOView) -> CountryView {
    CountryView {
        name: dto.name,
        region: dto.region,
        area: match dto.area {
            Some(area) => area,
            None => 0,
        },
        population: dto.population,
        languages: match dto.languages {
            Some(languages) => languages,
            None => Seq::empty(),
        },
    }
}

/// No ghost expression names the country that `from` returns: where the
/// record has no languages the result holds a list that is new. What is
/// returned is stated on `from` itself, over views.
impl FromSpecImpl<CountryDTO> for Country {
    open spec fn obeys_from_spec() -> bool {
        false
    }

    open spec fn from_spec(dto: CountryDTO) -> Country {
        arbitrary()
    }
}

impl From<CountryDTO> for Country {
    /// Fills in what a raw record leaves out.
    fn from(dto: CountryDTO) -> (out: Country)
        ensures
            out@ == normalized(dto@),
    {
        let area = match dto.area {
            Some(area) => area,
            None => Area::zero(),
        };
        let languages = match dto.languages {
            Some(languages) => languages,
            None => Vec::new(),
        };
        let out = Country {
            name: dto.name,
            region: dto.region,
            area,
            population: dto.population,
            languages,
        };
        assert(out@.languages =~= normalized(dto@).languages);
        out
    }
}

impl PartialEq for Language {
    /// Whether two languages have one name.
    fn eq(&self, other: &Language) -> (out: bool) {
        self.name == other.name
    }
}

impl Eq for Language {

}

impl PartialEqSpecImpl for Language {
    open spec fn obeys_eq_spec() -> bool {
        true
    }

    open spec fn eq_spec(&self, other: &Language) -> bool {
        self.name@ == other.name@
    }
}

impl Default for Language {
    /// The language without a name.
    fn default() -> (out: Language)
        ensures
            out@ == Seq::<char>::empty(),
    {
        Language { name: String::new() }
    }
}

impl Default for CountryDTO {
    /// The record with empty texts, no people, and neither area nor
    /// languages.
    fn default() -> (out: CountryDTO)
        ensures
            out@ == (CountryDTOView {
                name: Seq::empty(),
                region: Seq::empty(),
                area: None,
                population: 0,
                languages: None,
            }),
    {
        CountryDTO {
            name: String::new(),
            region: String::new(),
            area: None,
            population: 0,
            languages: None,
        }
    }
}

impl Default for Country {
    /// The country with empty texts, no people, no languages and an unknown
    /// area.
    fn default() -> (out: Country)
        ensures
            out@ == (CountryView {
                name: Seq::empty(),
                region: Seq::empty(),
                area: 0,
                population: 0,
                languages: Seq::empty(),
            }),
    {
        let out = Country {
            name: String::new(),
            region: String::new(),
            area: Area::zero(),
            population: 0,
            languages: Vec::new(),
        };
        assert(out@.languages =~= Seq::<Seq<char>>::empty());
        out
    }
}

} // verus!
