use countries::area::Area;
use countries::country::Country;
use countries::printer::{format_header, format_info, format_row, FormatInfo, Printer};
use countries::text::{byte_len, center, left_align, rule, spaces};

fn place(name: &str, region: &str, area: f32, population: u64) -> Country {
    Country {
        name: name.to_string(),
        region: region.to_string(),
        area: Area::from_bits(area.to_bits()).expect("a finite area that is not negative"),
        population,
        languages: Vec::new(),
    }
}

fn expected_header(info: &FormatInfo) -> String {
    format!(
        "|{0:^n_width$}|{1:^r_width$}|{2:^a_width$}|{3:^p_width$}|",
        "name",
        "region",
        "area",
        "population",
        n_width = info.name_width + 2,
        r_width = info.region_width + 2,
        a_width = info.area_width + 2,
        p_width = (info.population_width + 2).max("population".len()),
    )
}

fn expected_row(country: &Country, info: &FormatInfo) -> String {
    format!(
        "| {0:<n_width$} | {1:<r_width$} | {2:<a_width$.0} | {3:<p_width$.1} |",
        country.name,
        country.region,
        f32::from_bits(country.area.to_bits()),
        country.population as f64 / 1_000_000.0,
        n_width = info.name_width,
        r_width = info.region_width,
        a_width = info.area_width,
        p_width = info.population_width,
    )
}

fn world() -> Vec<Country> {
    vec![
        place("Åland Islands", "Europe", 1580.0, 28_875),
        place("Belgium", "Europe", 30528.0, 11_400_000),
        place("Côte d'Ivoire", "Africa", 322463.0, 26_378_274),
        place("Russian Federation", "Europe", 17124442.0, 146_599_183),
        place("Holy See", "Europe", 0.44, 451),
        place("United States Minor Outlying Islands", "Americas", 0.0, 300),
        place("China", "Asia", 9640011.0, 1_402_112_000),
    ]
}

#[test]
fn header_centres_each_label() {
    let info = FormatInfo { name_width: 7, region_width: 6, area_width: 5, population_width: 10 };
    assert_eq!(format_header(&info), "|  name   | region | area  | population |");
    assert_eq!(format_header(&info), expected_header(&info));
}

#[test]
fn header_of_narrow_columns_keeps_its_labels() {
    let info = FormatInfo { name_width: 0, region_width: 3, area_width: 2, population_width: 1 };
    assert_eq!(format_header(&info), "|name|region|area|population|");
    assert_eq!(format_header(&info), expected_header(&info));
    let info = FormatInfo { name_width: 4, region_width: 6, area_width: 4, population_width: 8 };
    assert_eq!(format_header(&info), "| name | region | area |population|");
    assert_eq!(format_header(&info), expected_header(&info));
    let info = FormatInfo { name_width: 5, region_width: 9, area_width: 4, population_width: 9 };
    assert_eq!(format_header(&info), expected_header(&info));
}

#[test]
fn widths_of_an_empty_list_are_those_of_the_labels() {
    let info = format_info(&[]);
    assert_eq!(
        info,
        FormatInfo { name_width: 4, region_width: 6, area_width: 4, population_width: 10 }
    );
}

#[test]
fn widths_hold_the_longest_cell() {
    let countries = world();
    let info = format_info(&countries);
    assert_eq!(info.name_width, "United States Minor Outlying Islands".len());
    assert_eq!(info.region_width, "Americas".len());
    assert_eq!(info.area_width, "17124442".len());
    assert_eq!(info.population_width, "population".len());
    let info = format_info(&[place("Åland", "Ö", 3.0e38, u64::MAX)]);
    assert_eq!(info.name_width, 6);
    assert_eq!(info.region_width, 6);
    assert_eq!(info.area_width, 39);
    assert_eq!(info.population_width, "18446744073709.6".len());
}

#[test]
fn widths_are_never_below_the_labels() {
    for countries in [world(), Vec::new(), vec![place("", "", 0.0, 0)]] {
        let info = format_info(&countries);
        assert!(info.name_width >= "name".len());
        assert!(info.region_width >= "region".len());
        assert!(info.area_width >= "area".len());
        assert!(info.population_width >= "population".len());
    }
}

#[test]
fn rows_match_the_formatter() {
    let countries = world();
    let info = format_info(&countries);
    for country in &countries {
        assert_eq!(format_row(country, &info), expected_row(country, &info));
    }
    let narrow = FormatInfo { name_width: 2, region_width: 0, area_width: 1, population_width: 3 };
    for country in &countries {
        assert_eq!(format_row(country, &narrow), expected_row(country, &narrow));
    }
}

#[test]
fn a_row_pads_its_cells() {
    let info = FormatInfo { name_width: 7, region_width: 6, area_width: 5, population_width: 10 };
    let belgium = place("Belgium", "Europe", 30528.0, 11_400_000);
    assert_eq!(format_row(&belgium, &info), "| Belgium | Europe | 30528 | 11.4       |");
    let aland = place("Aland", "Europe", 1580.0, 28_875);
    assert_eq!(format_row(&aland, &info), "| Aland   | Europe | 1580  | 0.0        |");
}

#[test]
fn table_of_two_countries() {
    let countries =
        [place("Aland", "Europe", 1580.0, 28_875), place("Belgium", "Europe", 30528.0, 11_400_000)];
    let lines = Printer::print_table(&countries);
    assert_eq!(
        lines,
        [
            "-----------------------------------------",
            "|  name   | region | area  | population |",
            "-----------------------------------------",
            "| Aland   | Europe | 1580  | 0.0        |",
            "-----------------------------------------",
            "| Belgium | Europe | 30528 | 11.4       |",
            "-----------------------------------------",
        ]
    );
}

#[test]
fn table_surrounds_every_row_with_rules() {
    let countries = world();
    let info = format_info(&countries);
    let header = expected_header(&info);
    let separator = "-".repeat(header.len());
    let mut expected = vec![separator.clone(), header];
    for country in &countries {
        expected.push(separator.clone());
        expected.push(expected_row(country, &info));
    }
    expected.push(separator);
    assert_eq!(Printer::print_table(&countries), expected);
}

#[test]
fn table_of_no_country_has_its_header() {
    let lines = Printer::print_table(&[]);
    assert_eq!(
        lines,
        [
            "-------------------------------------",
            "| name | region | area | population |",
            "-------------------------------------",
        ]
    );
}

#[test]
fn cells_are_padded_by_characters() {
    assert_eq!(left_align("Åland", 7), "Åland  ");
    assert_eq!(left_align("Åland", 7), format!("{:<7}", "Åland"));
    assert_eq!(left_align("Åland", 3), "Åland");
    assert_eq!(left_align("", 3), "   ");
    assert_eq!(center("Åland", 8), " Åland  ");
    assert_eq!(center("Åland", 8), format!("{:^8}", "Åland"));
    assert_eq!(center("ab", 7), "  ab   ");
    assert_eq!(center("abc", 2), "abc");
    assert_eq!(center("", 0), "");
    assert_eq!(byte_len("Åland"), 6);
    assert_eq!(byte_len(""), 0);
    assert_eq!(spaces(0), "");
    assert_eq!(spaces(3), "   ");
    assert_eq!(rule(0), "");
    assert_eq!(rule(5), "-----");
}
