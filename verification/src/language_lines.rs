//! The lines of the language table: its header, and for each language a
//! block of rows, one for each country in which it is spoken.

use crate::language_table::{member_sum, Group, LanguageTableView};
use crate::millions::millions_text;
use crate::text::{byte_count, centered, left_aligned, run};
use vstd::prelude::*;

verus! {

/// The header row of the language table: each label centred in its column's
/// width, between bars with a space on either side.
pub open spec fn languages_header(table: LanguageTableView) -> Seq<char> {
    "| "@ + centered("languages"@, table.languages_column_width) + " | "@ + centered(
        "countries"@,
        table.countries_column_width,
    ) + " | "@ + centered("population"@, table.population_column_width) + " |"@
}

/// The rule of the language table: a dash for each byte of its header row.
pub open spec fn languages_rule(table: LanguageTableView) -> Seq<char> {
    run('-', byte_count(languages_header(table)))
}

/// Row `k` of a group. The first row names the language, its first country
/// and the people of all its countries together, in millions with one
/// decimal; each later row names one more country and leaves the other cells
/// blank.
pub open spec fn language_row(table: LanguageTableView, group: Group, k: int) -> Seq<char> {
    if k == 0 {
        "| "@ + left_aligned(group.0, table.languages_column_width) + " | "@ + left_aligned(
            group.1[0].0,
            table.countries_column_width,
        ) + " | "@ + left_aligned(
            millions_text(member_sum(group.1, group.1.len())),
            table.population_column_width,
        ) + " |"@
    } else {
        "| "@ + left_aligned(""@, table.languages_column_width) + " | "@ + left_aligned(
            group.1[k].0,
            table.countries_column_width,
        ) + " | "@ + left_aligned(""@, table.population_column_width) + " |"@
    }
}

/// The first `n` rows of a group.
pub open spec fn language_rows(table: LanguageTableView, group: Group, n: nat) -> Seq<Seq<char>>
    decreases n,
{
    if n == 0 {
        Seq::empty()
    } else {
        language_rows(table, group, (n - 1) as nat).push(language_row(table, group, n - 1))
    }
}

/// The lines of the first `n` groups: the rows of each, one for each of its
/// countries, and a rule behind them.
pub open spec fn language_blocks(table: LanguageTableView, n: nat) -> Seq<Seq<char>>
    decreases n,
{
    if n == 0 {
        Seq::empty()
    } else {
        language_blocks(table, (n - 1) as nat) + language_rows(
            table,
            table.languages[n - 1],
            table.languages[n - 1].1.len(),
        ).push(languages_rule(table))
    }
}

/// The language table: its header between two rules, then the lines of every
/// group.
pub open spec fn languages_text(table: LanguageTableView) -> Seq<Seq<char>> {
    seq![languages_rule(table), languages_header(table), languages_rule(table)] + language_blocks(
        table,
        table.languages.len(),
    )
}

} // verus!
