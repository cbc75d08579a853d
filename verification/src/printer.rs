//! What is printed: the country table with its column widths, header, rows
//! and rules, the summary, and the language table, each as the lines of text
//! that show it.

use crate::area::whole_text;
use crate::average::get_avg_population;
use crate::country::{country_names, Country, CountryView};
use crate::language_lines::{
    language_blocks, language_row, language_rows, languages_header, languages_rule,
    languages_text,
};
use crate::language_table::{member_sum, LanguageTable};
use crate::millions::{millions, millions_text};
use crate::summary::{
    format_summary, get_biggest_area, get_smallest_area, some_area_known, summarizes,
};
use crate::text::{
    byte_count, byte_len, center, centered, larger, left_align, left_aligned,
    lemma_byte_count_ascii, lemma_chars_at_most_bytes, lemma_padded_ascii, lemma_padded_len,
    lemma_widest, rule, run, widest,
};
use vstd::prelude::*;
use vstd::string::*;
use vstd::utf8::*;

verus! {

/// The layout of tables and of the summary that goes with them.
pub struct Printer;

/// The widths of the four columns of the country table.
#[derive(Clone, Copy, Debug, PartialEq, Eq, Structural)]
pub struct FormatInfo {
    pub name_width: usize,
    pub region_width: usize,
    pub area_width: usize,
    pub population_width: usize,
}

/// Four column widths as natural numbers.
pub struct Widths {
    pub name: nat,
    pub region: nat,
    pub area: nat,
    pub population: nat,
}

impl View for FormatInfo {
    type V = Widths;

    open spec fn view(&self) -> Widths {
        Widths {
            name: self.name_width as nat,
            region: self.region_width as nat,
            area: self.area_width as nat,
            population: self.population_width as nat,
        }
    }
}

/// The cells of the second column, one text for each country.
pub open spec fn region_cells(countries: Seq<CountryView>) -> Seq<Seq<char>> {
    Seq::new(countries.len(), |i: int| countries[i].region)
}

/// The cells of the third column: the areas without decimals.
pub open spec fn area_cells(countries: Seq<CountryView>) -> Seq<Seq<char>> {
    Seq::new(countries.len(), |i: int| whole_text(countries[i].area))
}

/// The cells of the fourth column: the people in millions with one decimal.
pub open spec fn population_cells(countries: Seq<CountryView>) -> Seq<Seq<char>> {
    Seq::new(countries.len(), |i: int| millions_text(countries[i].population as nat))
}

/// The widths of the country table: each column as wide as its label and as
/// its longest cell, the area without decimals and the population in millions
/// with one decimal.
pub open spec fn column_widths(countries: Seq<CountryView>) -> Widths {
    Widths {
        name: widest(byte_count("name"@), country_names(countries), countries.len()),
        region: widest(byte_count("region"@), region_cells(countries), countries.len()),
        area: widest(byte_count("area"@), area_cells(countries), countries.len()),
        population: widest(
            byte_count("population"@),
            population_cells(countries),
            countries.len(),
        ),
    }
}

/// The header row: each label centred in its column's width and a margin of
/// two, between bars. The last column is never narrower than its label.
pub open spec fn header_text(widths: Widths) -> Seq<char> {
    "|"@ + centered("name"@, widths.name + 2) + "|"@ + centered("region"@, widths.region + 2)
        + "|"@ + centered("area"@, widths.area + 2) + "|"@ + centered(
        "population"@,
        larger(widths.population + 2, byte_count("population"@)),
    ) + "|"@
}

/// A data row: the four cells, each padded on the right to its column's
/// width, between bars with a space on either side.
pub open spec fn row_text(country: CountryView, widths: Widths) -> Seq<char> {
    "| "@ + left_aligned(country.name, widths.name) + " | "@ + left_aligned(
        country.region,
        widths.region,
    ) + " | "@ + left_aligned(whole_text(country.area), widths.area) + " | "@ + left_aligned(
        millions_text(country.population as nat),
        widths.population,
    ) + " |"@
}

/// The rule of the country table: a dash for each byte of the header row.
pub open spec fn rule_text(widths: Widths) -> Seq<char> {
    run('-', byte_count(header_text(widths)))
}

/// Line `i` of the country table: the header is the second line, the rows
/// follow on every other line, and the rule stands before, between and after
/// them.
pub open spec fn table_line(countries: Seq<CountryView>, i: int) -> Seq<char> {
    let widths = column_widths(countries);
    if i == 1 {
        header_text(widths)
    } else if i % 2 == 0 {
        rule_text(widths)
    } else {
        row_text(countries[(i - 3) / 2], widths)
    }
}

/// The country table: a rule, the header, then a rule and a row for each
/// country, then a last rule.
pub open spec fn table_text(countries: Seq<CountryView>) -> Seq<Seq<char>> {
    Seq::new(2 * countries.len() + 3, |i: int| table_line(countries, i))
}

/// The labels of the country table take 4, 6, 4 and 10 bytes.
pub proof fn lemma_label_lengths()
    ensures
        byte_count("name"@) == 4,
        byte_count("region"@) == 6,
        byte_count("area"@) == 4,
        byte_count("population"@) == 10,
{
    reveal_strlit("name");
    reveal_strlit("region");
    reveal_strlit("area");
    reveal_strlit("population");
    lemma_byte_count_ascii("name"@);
    lemma_byte_count_ascii("region"@);
    lemma_byte_count_ascii("area"@);
    lemma_byte_count_ascii("population"@);
}

/// Every line of the country table has as many characters as its header:
/// each column is wide enough for its label and for every one of its cells.
pub proof fn lemma_table_aligned(countries: Seq<CountryView>, i: int)
    requires
        0 <= i < table_text(countries).len(),
    ensures
        table_text(countries)[i].len() == header_text(column_widths(countries)).len(),
{
    let widths = column_widths(countries);
    let header = header_text(widths);
    lemma_label_lengths();
    reveal_strlit("name");
    reveal_strlit("region");
    reveal_strlit("area");
    reveal_strlit("population");
    reveal_strlit("|");
    reveal_strlit("| ");
    reveal_strlit(" | ");
    reveal_strlit(" |");
    lemma_widest(4, country_names(countries), countries.len());
    lemma_widest(6, region_cells(countries), countries.len());
    lemma_widest(4, area_cells(countries), countries.len());
    lemma_widest(10, population_cells(countries), countries.len());
    lemma_padded_len("name"@, widths.name + 2);
    lemma_padded_len("region"@, widths.region + 2);
    lemma_padded_len("area"@, widths.area + 2);
    lemma_padded_len("population"@, widths.population + 2);
    assert(header.len() == widths.name + widths.region + widths.area + widths.population + 13);
    if i == 1 {
    } else if i % 2 == 0 {
        lemma_padded_ascii("name"@, widths.name + 2);
        lemma_padded_ascii("region"@, widths.region + 2);
        lemma_padded_ascii("area"@, widths.area + 2);
        lemma_padded_ascii("population"@, widths.population + 2);
        assert(is_ascii_chars(header));
        lemma_byte_count_ascii(header);
    } else {
        let k = (i - 3) / 2;
        let country = countries[k];
        assert(country_names(countries)[k] == country.name);
        assert(region_cells(countries)[k] == country.region);
        assert(area_cells(countries)[k] == whole_text(country.area));
        assert(population_cells(countries)[k] == millions_text(country.population as nat));
        lemma_chars_at_most_bytes(country.name);
        lemma_chars_at_most_bytes(country.region);
        lemma_chars_at_most_bytes(whole_text(country.area));
        lemma_chars_at_most_bytes(millions_text(country.population as nat));
        lemma_padded_len(country.name, widths.name);
        lemma_padded_len(country.region, widths.region);
        lemma_padded_len(whole_text(country.area), widths.area);
        lemma_padded_len(millions_text(country.population as nat), widths.population);
    }
}

/// The widths of the columns that hold `countries`.
pub fn format_info(countries: &[Country]) -> (out: FormatInfo)
    ensures
        out@ == column_widths(countries.deep_view()),
        out.name_width >= 4,
        out.region_width >= 6,
        out.area_width >= 4,
        out.population_width >= 10,
{
    let ghost views = countries.deep_view();
    proof {
        lemma_label_lengths();
        lemma_widest(4, country_names(views), views.len());
        lemma_widest(6, region_cells(views), views.len());
        lemma_widest(4, area_cells(views), views.len());
        lemma_widest(10, population_cells(views), views.len());
    }
    let mut name_width = byte_len("name");
    let mut region_width = byte_len("region");
    let mut area_width = byte_len("area");
    let mut population_width = byte_len("population");
    let mut i: usize = 0;
    while i < countries.len()
        invariant
            i <= countries.len(),
            views == countries.deep_view(),
            name_width == widest(byte_count("name"@), country_names(views), i as nat),
            region_width == widest(byte_count("region"@), region_cells(views), i as nat),
            area_width == widest(byte_count("area"@), area_cells(views), i as nat),
            population_width == widest(
                byte_count("population"@),
                population_cells(views),
                i as nat,
            ),
        decreases countries.len() - i,
    {
        let country = &countries[i];
        assert(views[i as int] == country@);
        let name = byte_len(country.name.as_str());
        if name > name_width {
            name_width = name;
        }
        let region = byte_len(country.region.as_str());
        if region > region_width {
            region_width = region;
        }
        let area_text = country.area.rounded_text();
        let area = byte_len(area_text.as_str());
        if area > area_width {
            area_width = area;
        }
        let population_text = millions(country.population as u128);
        let population = byte_len(population_text.as_str());
        if population > population_width {
            population_width = population;
        }
        i += 1;
    }
    FormatInfo { name_width, region_width, area_width, population_width }
}

/// The header row of the country table.
pub fn format_header(format_info: &FormatInfo) -> (out: String)
    ensures
        out@ == header_text(format_info@),
{
    let label = byte_len("population") as u128;
    let margin = format_info.population_width as u128 + 2;
    let last = if margin >= label {
        margin
    } else {
        label
    };
    let name = center("name", format_info.name_width as u128 + 2);
    let region = center("region", format_info.region_width as u128 + 2);
    let area = center("area", format_info.area_width as u128 + 2);
    let population = center("population", last);
    let mut out = String::from_str("|");
    out.append(name.as_str());
    out.append("|");
    out.append(region.as_str());
    out.append("|");
    out.append(area.as_str());
    out.append("|");
    out.append(population.as_str());
    out.append("|");
    out
}

/// The row of the country table that shows `country`.
pub fn format_row(country: &Country, format_info: &FormatInfo) -> (out: String)
    ensures
        out@ == row_text(country@, format_info@),
{
    let area_text = country.area.rounded_text();
    let population_text = millions(country.population as u128);
    let name = left_align(country.name.as_str(), format_info.name_width as u128);
    let region = left_align(country.region.as_str(), format_info.region_width as u128);
    let area = left_align(area_text.as_str(), format_info.area_width as u128);
    let population = left_align(population_text.as_str(), format_info.population_width as u128);
    let mut out = String::from_str("| ");
    out.append(name.as_str());
    out.append(" | ");
    out.append(region.as_str());
    out.append(" | ");
    out.append(area.as_str());
    out.append(" | ");
    out.append(population.as_str());
    out.append(" |");
    out
}

/// Adds a line to the end of `lines`.
fn push_line(lines: &mut Vec<String>, line: String)
    ensures
        final(lines).deep_view() == old(lines).deep_view().push(line@),
{
    lines.push(line);
    assert(lines.deep_view() =~= old(lines).deep_view().push(line@));
}

/// The people of all `members` together.
fn members_total(members: &Vec<(String, u64)>) -> (out: u128)
    ensures
        out == member_sum(members.deep_view(), members@.len()),
{
    let ghost views = members.deep_view();
    let mut out: u128 = 0;
    let mut i: usize = 0;
    while i < members.len()
        invariant
            i <= members.len(),
            views == members.deep_view(),
            out == member_sum(views, i as nat),
            out <= i * u64::MAX,
        decreases members.len() - i,
    {
        assert(views[i as int] == members[i as int].deep_view());
        assert((i + 1) * u64::MAX == i * u64::MAX + u64::MAX) by (nonlinear_arith);
        assert(i * u64::MAX <= usize::MAX * u64::MAX) by (nonlinear_arith)
            requires
                i <= usize::MAX,
        ;
        out = out + members[i].1 as u128;
        i += 1;
    }
    out
}

/// The header row of the language table.
pub fn format_languages_header(table: &LanguageTable) -> (out: String)
    ensures
        out@ == languages_header(table@),
{
    let languages = center("languages", table.languages_column_width as u128);
    let countries = center("countries", table.countries_column_width as u128);
    let population = center("population", table.population_column_width as u128);
    let mut out = String::from_str("| ");
    out.append(languages.as_str());
    out.append(" | ");
    out.append(countries.as_str());
    out.append(" | ");
    out.append(population.as_str());
    out.append(" |");
    out
}

/// Row `k` of the group at place `i` of the language table.
pub fn format_language_row(table: &LanguageTable, i: usize, k: usize) -> (out: String)
    requires
        i < table.languages@.len(),
        k < table.languages@[i as int].1@.len(),
    ensures
        out@ == language_row(table@, table@.languages[i as int], k as int),
{
    let language = &table.languages[i].0;
    let members = &table.languages[i].1;
    let country = &members[k].0;
    assert(table@.languages[i as int] == (language@, members.deep_view()));
    assert(members.deep_view()[k as int].0 == country@);
    let country_cell = left_align(country.as_str(), table.countries_column_width as u128);
    let (language_cell, population_cell) = if k == 0 {
        let total = millions(members_total(members));
        (
            left_align(language.as_str(), table.languages_column_width as u128),
            left_align(total.as_str(), table.population_column_width as u128),
        )
    } else {
        (
            left_align("", table.languages_column_width as u128),
            left_align("", table.population_column_width as u128),
        )
    };
    let mut out = String::from_str("| ");
    out.append(language_cell.as_str());
    out.append(" | ");
    out.append(country_cell.as_str());
    out.append(" | ");
    out.append(population_cell.as_str());
    out.append(" |");
    out
}

impl Printer {
    /// The lines of the country table, from the first rule to the last.
    pub fn print_table(countries: &[Country]) -> (lines: Vec<String>)
        ensures
            lines.deep_view() == table_text(countries.deep_view()),
    {
        let ghost views = countries.deep_view();
        let format_info = format_info(countries);
        let formatted_header = format_header(&format_info);
        let row_separator = rule(byte_len(formatted_header.as_str()));
        let mut lines: Vec<String> = Vec::new();
        lines.push(row_separator.clone());
        lines.push(formatted_header);
        let mut i: usize = 0;
        while i < countries.len()
            invariant
                i <= countries.len(),
                views == countries.deep_view(),
                format_info@ == column_widths(views),
                row_separator@ == rule_text(format_info@),
                lines.len() == 2 * i + 2,
                forall|j: int| 0 <= j < lines.len() ==> (#[trigger] lines[j])@ == table_line(views, j),
            decreases countries.len() - i,
        {
            let row = format_row(&countries[i], &format_info);
            assert(views[i as int] == countries[i as int]@);
            lines.push(row_separator.clone());
            lines.push(row);
            i += 1;
        }
        lines.push(row_separator);
        assert(lines.deep_view() =~= table_text(views));
        lines
    }

    /// The lines of the summary of `countries`, or why there is none: an
    /// empty list has no largest area, and a list in which no area is known
    /// has no smallest.
    pub fn print_summary(countries: &[Country]) -> (out: Result<Vec<String>, String>)
        ensures
            match out {
                Ok(lines) => {
                    &&& countries@.len() > 0
                    &&& some_area_known(countries.deep_view())
                    &&& summarizes(lines.deep_view(), countries)
                },
                Err(message) => if countries@.len() == 0 {
                    message@ == "could not get country with biggest area"@
                } else {
                    &&& !some_area_known(countries.deep_view())
                    &&& message@ == "could not get country with smallest area"@
                },
            },
    {
        let average_pop = get_avg_population(countries);
        let biggest = match get_biggest_area(countries) {
            Some(country) => country,
            None => {
                return Err(String::from_str("could not get country with biggest area"));
            },
        };
        let smallest = match get_smallest_area(countries) {
            Some(country) => country,
            None => {
                return Err(String::from_str("could not get country with smallest area"));
            },
        };
        Ok(format_summary(average_pop.unwrap().as_str(), biggest, smallest))
    }

    /// The lines of the language table, from the first rule to the last.
    pub fn print_languages(countries_per_lang: &LanguageTable) -> (lines: Vec<String>)
        ensures
            lines.deep_view() == languages_text(countries_per_lang@),
    {
        let ghost table = countries_per_lang@;
        let formatted_header = format_languages_header(countries_per_lang);
        let row_separator = rule(byte_len(formatted_header.as_str()));
        let mut lines: Vec<String> = Vec::new();
        push_line(&mut lines, row_separator.clone());
        push_line(&mut lines, formatted_header);
        push_line(&mut lines, row_separator.clone());
        let ghost top = seq![languages_rule(table), languages_header(table), languages_rule(table)];
        assert(lines.deep_view() =~= top + language_blocks(table, 0));
        let mut i: usize = 0;
        while i < countries_per_lang.languages.len()
            invariant
                i <= countries_per_lang.languages.len(),
                table == countries_per_lang@,
                row_separator@ == languages_rule(table),
                top == seq![languages_rule(table), languages_header(table), languages_rule(table)],
                lines.deep_view() == top + language_blocks(table, i as nat),
            decreases countries_per_lang.languages.len() - i,
        {
            let ghost group = table.languages[i as int];
            let ghost done = top + language_blocks(table, i as nat);
            assert(lines.deep_view() =~= done + language_rows(table, group, 0));
            let mut k: usize = 0;
            while k < countries_per_lang.languages[i].1.len()
                invariant
                    i < countries_per_lang.languages.len(),
                    k <= countries_per_lang.languages[i as int].1.len(),
                    table == countries_per_lang@,
                    group == table.languages[i as int],
                    lines.deep_view() == done + language_rows(table, group, k as nat),
                decreases countries_per_lang.languages[i as int].1.len() - k,
            {
                let row = format_language_row(countries_per_lang, i, k);
                push_line(&mut lines, row);
                k += 1;
                assert(lines.deep_view() =~= done + language_rows(table, group, k as nat));
            }
            push_line(&mut lines, row_separator.clone());
            i += 1;
            assert(lines.deep_view() =~= top + language_blocks(table, i as nat));
        }
        lines
    }
}

} // verus!
