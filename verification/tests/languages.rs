use countries::area::Area;
use countries::country::{Country, Language};
use countries::language_table::LanguageTable;
use countries::printer::{format_language_row, format_languages_header, Printer};

fn speaking(name: &str, population: u64, languages: &[&str]) -> Country {
    Country {
        name: name.to_string(),
        region: "Europe".to_string(),
        area: Area::zero(),
        population,
        languages: languages.iter().map(|name| Language { name: name.to_string() }).collect(),
    }
}

fn pairs(list: &[(&str, u64)]) -> Vec<(String, u64)> {
    list.iter().map(|(name, people)| (name.to_string(), *people)).collect()
}

fn europe() -> Vec<Country> {
    vec![
        speaking("Aland", 28_875, &["Swedish"]),
        speaking("Belgium", 11_400_000, &["Dutch", "French", "German"]),
        speaking("Antarctica", 1_000, &[]),
        speaking("France", 67_391_582, &["French"]),
        speaking("Sweden", 10_353_442, &["Swedish"]),
        speaking("Luxembourg", 632_275, &["French", "German", "Luxembourgish"]),
    ]
}

#[test]
fn languages_are_grouped_in_the_order_they_occur() {
    let table = LanguageTable::from_countries(&europe());
    let names: Vec<&str> = table.languages.iter().map(|group| group.0.as_str()).collect();
    assert_eq!(names, ["Swedish", "Dutch", "French", "German", "Luxembourgish"]);
    assert_eq!(table.languages[0].1, pairs(&[("Aland", 28_875), ("Sweden", 10_353_442)]));
    assert_eq!(table.languages[1].1, pairs(&[("Belgium", 11_400_000)]));
    assert_eq!(
        table.languages[2].1,
        pairs(&[("Belgium", 11_400_000), ("France", 67_391_582), ("Luxembourg", 632_275)])
    );
    assert_eq!(table.languages[3].1, pairs(&[("Belgium", 11_400_000), ("Luxembourg", 632_275)]));
    assert_eq!(table.languages[4].1, pairs(&[("Luxembourg", 632_275)]));
}

#[test]
fn language_columns_hold_the_longest_cell() {
    let table = LanguageTable::from_countries(&europe());
    assert_eq!(table.languages_column_width, "Luxembourgish".len());
    assert_eq!(table.countries_column_width, "Antarctica".len());
    assert_eq!(table.population_column_width, "population".len());
    let table = LanguageTable::from_countries(&[speaking("Åland", 1, &["Ö"])]);
    assert_eq!(table.languages_column_width, 9);
    assert_eq!(table.countries_column_width, 9);
    assert_eq!(table.population_column_width, 10);
    let table = LanguageTable::from_countries(&[speaking("Österreich", 1, &["Österreichisch"])]);
    assert_eq!(table.languages_column_width, 15);
    assert_eq!(table.countries_column_width, 11);
}

#[test]
fn language_table_of_no_country_is_empty() {
    let table = LanguageTable::from_countries(&[]);
    assert!(table.languages.is_empty());
    assert_eq!(table.languages_column_width, 9);
    assert_eq!(table.countries_column_width, 9);
    assert_eq!(table.population_column_width, 10);
    assert_eq!(
        Printer::print_languages(&table),
        [
            "--------------------------------------",
            "| languages | countries | population |",
            "--------------------------------------",
        ]
    );
}

#[test]
fn a_country_without_languages_has_no_row() {
    let countries = [speaking("Antarctica", 1_000, &[]), speaking("Aland", 28_875, &["Swedish"])];
    let table = LanguageTable::from_countries(&countries);
    assert_eq!(table.languages.len(), 1);
    assert_eq!(table.languages[0].0, "Swedish");
    assert_eq!(table.languages[0].1, pairs(&[("Aland", 28_875)]));
    assert_eq!(table.countries_column_width, "Antarctica".len());
    let lines = Printer::print_languages(&table);
    assert_eq!(lines.len(), 5);
    for line in &lines {
        assert!(!line.contains("Antarctica"));
    }
    let alone = LanguageTable::from_countries(&[speaking("Antarctica", 1_000, &[])]);
    assert!(alone.languages.is_empty());
    assert_eq!(Printer::print_languages(&alone).len(), 3);
}

#[test]
fn language_total_is_the_sum_of_its_speakers() {
    let countries = europe();
    let table = LanguageTable::from_countries(&countries);
    for (language, members) in &table.languages {
        let total: u64 = members.iter().map(|member| member.1).sum();
        let expected: u64 = countries
            .iter()
            .filter(|country| country.languages.iter().any(|spoken| spoken.name == *language))
            .map(|country| country.population)
            .sum();
        assert_eq!(total, expected);
    }
    let french: u64 = table.languages[2].1.iter().map(|member| member.1).sum();
    assert_eq!(french, 11_400_000 + 67_391_582 + 632_275);
}

#[test]
fn a_language_named_twice_is_filed_once() {
    let table = LanguageTable::from_countries(&[speaking("X", 10, &["L", "L"])]);
    assert_eq!(table.languages.len(), 1);
    assert_eq!(table.languages[0].0, "L");
    assert_eq!(table.languages[0].1, pairs(&[("X", 10)]));
    assert_eq!(
        Printer::print_languages(&table),
        [
            "--------------------------------------",
            "| languages | countries | population |",
            "--------------------------------------",
            "| L         | X         | 0.0        |",
            "--------------------------------------",
        ]
    );
    let countries = [
        speaking("Echo", 5_000_000, &["Echoic", "Other", "Echoic", "Other", "Echoic"]),
        speaking("Delta", 2_000_000, &["Other", "Other"]),
        speaking("Echo", 1_000_000, &["Echoic"]),
    ];
    let table = LanguageTable::from_countries(&countries);
    assert_eq!(table.languages.len(), 2);
    assert_eq!(table.languages[0].0, "Echoic");
    assert_eq!(table.languages[0].1, pairs(&[("Echo", 5_000_000), ("Echo", 1_000_000)]));
    assert_eq!(table.languages[1].0, "Other");
    assert_eq!(table.languages[1].1, pairs(&[("Echo", 5_000_000), ("Delta", 2_000_000)]));
    for (language, members) in &table.languages {
        let total: u64 = members.iter().map(|member| member.1).sum();
        let expected: u64 = countries
            .iter()
            .filter(|country| country.languages.iter().any(|spoken| spoken.name == *language))
            .map(|country| country.population)
            .sum();
        assert_eq!(total, expected);
    }
    let lines = Printer::print_languages(&table);
    assert_eq!(lines[3], "| Echoic    | Echo      | 6.0        |");
    assert_eq!(lines[6], "| Other     | Echo      | 7.0        |");
}

#[test]
fn language_table_of_two_countries() {
    let countries = [
        speaking("Aland", 28_875, &["Swedish"]),
        speaking("Belgium", 11_400_000, &["Dutch", "French"]),
        speaking("France", 67_391_582, &["French"]),
    ];
    let table = LanguageTable::from_countries(&countries);
    assert_eq!(
        Printer::print_languages(&table),
        [
            "--------------------------------------",
            "| languages | countries | population |",
            "--------------------------------------",
            "| Swedish   | Aland     | 0.0        |",
            "--------------------------------------",
            "| Dutch     | Belgium   | 11.4       |",
            "--------------------------------------",
            "| French    | Belgium   | 78.8       |",
            "|           | France    |            |",
            "--------------------------------------",
        ]
    );
}

#[test]
fn language_rows_match_the_formatter() {
    let table = LanguageTable::from_countries(&europe());
    let l_width = table.languages_column_width;
    let c_width = table.countries_column_width;
    let p_width = table.population_column_width;
    let header = format!(
        "| {0:^l_width$} | {1:^c_width$} | {2:^p_width$} |",
        "languages",
        "countries",
        "population",
        l_width = l_width,
        c_width = c_width,
        p_width = p_width
    );
    let separator = "-".repeat(header.len());
    let mut expected = vec![separator.clone(), header, separator.clone()];
    for (language, members) in &table.languages {
        let total: u64 = members.iter().map(|member| member.1).sum();
        for (k, member) in members.iter().enumerate() {
            if k == 0 {
                expected.push(format!(
                    "| {0:<l_width$} | {1:<c_width$} | {2:<p_width$.1} |",
                    language,
                    member.0,
                    total as f64 / 1_000_000.0,
                    l_width = l_width,
                    c_width = c_width,
                    p_width = p_width
                ));
            } else {
                expected.push(format!(
                    "| {0:<l_width$} | {1:<c_width$} | {2:<p_width$.0} |",
                    "",
                    member.0,
                    "",
                    l_width = l_width,
                    c_width = c_width,
                    p_width = p_width
                ));
            }
        }
        expected.push(separator.clone());
    }
    assert_eq!(Printer::print_languages(&table), expected);
}

#[test]
fn a_group_without_countries_has_only_its_rule() {
    let table = LanguageTable {
        countries_column_width: 9,
        languages_column_width: 9,
        population_column_width: 10,
        languages: vec![("Latin".to_string(), Vec::new()), ("Greek".to_string(), pairs(&[("Greece", 10_000_000)]))],
    };
    assert_eq!(
        Printer::print_languages(&table),
        [
            "--------------------------------------",
            "| languages | countries | population |",
            "--------------------------------------",
            "--------------------------------------",
            "| Greek     | Greece    | 10.0       |",
            "--------------------------------------",
        ]
    );
}

#[test]
fn a_total_beyond_one_word_is_still_exact() {
    let table = LanguageTable {
        countries_column_width: 9,
        languages_column_width: 9,
        population_column_width: 10,
        languages: vec![("Many".to_string(), pairs(&[("a", u64::MAX), ("b", u64::MAX)]))],
    };
    let lines = Printer::print_languages(&table);
    let total = 2.0 * (u64::MAX as f64) / 1_000_000.0;
    assert_eq!(lines[3], format!("| Many      | a         | {:<10.1} |", total));
}

#[test]
fn language_rows_pad_by_characters() {
    let countries = [
        speaking("Österreich", 8_917_205, &["Österreichisches Deutsch"]),
        speaking("Schweiz", 8_654_622, &["Schweizerdeutsch", "Österreichisches Deutsch"]),
    ];
    let table = LanguageTable::from_countries(&countries);
    assert_eq!(table.languages_column_width, 25);
    assert_eq!(table.countries_column_width, 11);
    assert_eq!(
        format_languages_header(&table),
        format!("| {:^25} | {:^11} | {:^10} |", "languages", "countries", "population")
    );
    assert_eq!(
        format_language_row(&table, 0, 0),
        format!("| {:<25} | {:<11} | {:<10} |", "Österreichisches Deutsch", "Österreich", "17.6")
    );
    assert_eq!(
        format_language_row(&table, 0, 1),
        format!("| {:<25} | {:<11} | {:<10} |", "", "Schweiz", "")
    );
    assert_eq!(
        format_language_row(&table, 1, 0),
        format!("| {:<25} | {:<11} | {:<10} |", "Schweizerdeutsch", "Schweiz", "8.7")
    );
}
