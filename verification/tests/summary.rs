use countries::area::Area;
use countries::country::{Country, CountryDTO, Language};
use countries::printer::Printer;
use countries::average::get_avg_population;
use countries::summary::{
    biggest_area_index, get_biggest_area, get_smallest_area, smallest_area_index,
};

fn sized(value: f32) -> Area {
    Area::from_bits(value.to_bits()).expect("a finite area that is not negative")
}

fn land(name: &str, area: f32, population: u64) -> Country {
    Country { name: name.to_string(), area: sized(area), population, ..Default::default() }
}

#[test]
fn find_smallest_area() {
    let smallest_name = "smallest";
    let country_a = Country {
        name: smallest_name.to_string(),
        area: sized(0.1),
        ..Default::default()
    };
    let country_b = Country { area: sized(0.2), ..Default::default() };
    let countries = [country_a, country_b];
    let smallest = get_smallest_area(&countries);
    assert!(smallest.is_some());
    assert_eq!(smallest.unwrap().name, smallest_name);
}

#[test]
fn find_biggest_area() {
    let biggest_name = "biggest";
    let country_a = Country { area: sized(0.1), ..Default::default() };
    let country_b = Country {
        name: biggest_name.to_string(),
        area: sized(0.2),
        ..Default::default()
    };
    let countries = [country_a, country_b];
    let biggest = get_biggest_area(&countries);
    assert!(biggest.is_some());
    assert_eq!(biggest.unwrap().name, biggest_name);
}

#[test]
fn biggest_area_is_at_least_every_area() {
    let countries = [
        land("a", 12.5, 1),
        land("b", 0.0, 2),
        land("c", 7_000_000.0, 3),
        land("d", 0.44, 4),
        land("e", 6_999_999.5, 5),
    ];
    let biggest = get_biggest_area(&countries).unwrap();
    assert_eq!(biggest.name, "c");
    for country in &countries {
        assert!(biggest.area.to_bits() >= country.area.to_bits());
        assert!(!biggest.area.is_below(&country.area));
    }
}

#[test]
fn smallest_area_is_at_most_every_known_area() {
    let countries = [
        land("a", 12.5, 1),
        land("b", 0.0, 2),
        land("c", 7_000_000.0, 3),
        land("d", 0.44, 4),
        land("e", 0.45, 5),
    ];
    let smallest = get_smallest_area(&countries).unwrap();
    assert_eq!(smallest.name, "d");
    for country in &countries {
        if country.area.is_positive() {
            assert!(!country.area.is_below(&smallest.area));
        }
    }
}

#[test]
fn the_last_of_equal_areas_is_reported() {
    let countries = [
        land("first", 5.0, 1),
        land("second", 5.0, 2),
        land("small", 1.0, 3),
        land("small again", 1.0, 4),
    ];
    assert_eq!(biggest_area_index(&countries), Some(1));
    assert_eq!(smallest_area_index(&countries), Some(3));
    assert_eq!(get_biggest_area(&countries).unwrap().name, "second");
    assert_eq!(get_smallest_area(&countries).unwrap().name, "small again");
}

#[test]
fn no_country_no_biggest_area() {
    let countries: [Country; 0] = [];
    assert!(get_biggest_area(&countries).is_none());
    assert!(get_smallest_area(&countries).is_none());
    assert_eq!(biggest_area_index(&countries), None);
    assert_eq!(smallest_area_index(&countries), None);
}

#[test]
fn unknown_areas_have_no_smallest() {
    let countries = [land("a", 0.0, 1), land("b", 0.0, 2)];
    assert_eq!(get_biggest_area(&countries).unwrap().name, "b");
    assert!(get_smallest_area(&countries).is_none());
}

#[test]
fn summary_of_an_empty_list_is_an_error() {
    let countries: [Country; 0] = [];
    assert_eq!(
        Printer::print_summary(&countries),
        Err("could not get country with biggest area".to_string())
    );
}

#[test]
fn summary_without_a_known_area_is_an_error() {
    let countries = [land("a", 0.0, 10), land("b", 0.0, 20)];
    assert_eq!(
        Printer::print_summary(&countries),
        Err("could not get country with smallest area".to_string())
    );
}

#[test]
fn summary_of_two_countries() {
    let countries = [land("Aland", 1580.0, 28_875), land("Belgium", 30528.0, 11_400_000)];
    assert_eq!(
        Printer::print_summary(&countries),
        Ok(vec![
            "Average population: 5.7 mil".to_string(),
            "Country with biggest area: Belgium (30528 sq mi)".to_string(),
            "Country with smallest area: Aland (1580 sq mi)".to_string(),
        ])
    );
}

fn expected_summary(countries: &[Country]) -> Vec<String> {
    let average = expected_average(countries);
    let area = |country: &Country| f32::from_bits(country.area.to_bits());
    let biggest = get_biggest_area(countries).unwrap();
    let smallest = get_smallest_area(countries).unwrap();
    vec![
        format!("Average population: {} mil", average),
        format!("Country with biggest area: {} ({:.0} sq mi)", biggest.name, area(biggest)),
        format!("Country with smallest area: {} ({} sq mi)", smallest.name, area(smallest)),
    ]
}

#[test]
fn summary_shows_areas_as_the_formatter_does() {
    let countries = [
        land("Holy See", 0.44, 451),
        land("Monaco", 2.02, 39_244),
        land("Russian Federation", 17124442.0, 146_599_183),
        land("Nowhere", 0.0, 7),
        land("Belgium", 30528.4, 11_400_000),
    ];
    assert_eq!(Printer::print_summary(&countries), Ok(expected_summary(&countries)));
    assert_eq!(
        Printer::print_summary(&countries),
        Ok(vec![
            "Average population: 31.6 mil".to_string(),
            "Country with biggest area: Russian Federation (17124442 sq mi)".to_string(),
            "Country with smallest area: Holy See (0.44 sq mi)".to_string(),
        ])
    );
    assert_eq!(Printer::print_summary(&countries[1..]), Ok(expected_summary(&countries[1..])));
    assert_eq!(Printer::print_summary(&countries[4..]), Ok(expected_summary(&countries[4..])));
    assert_eq!(
        Printer::print_summary(&countries[4..]),
        Ok(vec![
            "Average population: 11.4 mil".to_string(),
            "Country with biggest area: Belgium (30528 sq mi)".to_string(),
            "Country with smallest area: Belgium (30528.4 sq mi)".to_string(),
        ])
    );
}

fn expected_average(countries: &[Country]) -> String {
    let average =
        countries.iter().map(|c| c.population as f64).sum::<f64>() / countries.len() as f64;
    format!("{:.1}", average / 1_000_000.0)
}

#[test]
fn average_population_in_millions() {
    let countries = [land("Aland", 1580.0, 28_875), land("Belgium", 30528.0, 11_400_000)];
    assert_eq!(get_avg_population(&countries), Some("5.7".to_string()));
    assert_eq!(get_avg_population(&countries[..1]), Some("0.0".to_string()));
    assert_eq!(get_avg_population(&countries[1..]), Some("11.4".to_string()));
    assert_eq!(get_avg_population(&[]), None);
    let three = [land("a", 1.0, 100_000), land("b", 1.0, 100_000), land("c", 1.0, 250_000)];
    assert_eq!(get_avg_population(&three), Some("0.1".to_string()));
    assert_eq!(get_avg_population(&three), Some(expected_average(&three)));
}

#[test]
fn average_population_matches_the_arithmetic_of_doubles() {
    let mut seed: u64 = 0x9e37_79b9_7f4a_7c15;
    let mut next = move || {
        seed ^= seed << 13;
        seed ^= seed >> 7;
        seed ^= seed << 17;
        seed
    };
    for round in 0..400u64 {
        let count = 1 + (next() % 40) as usize;
        let bits = 1 + (round % 64) as u32;
        let mut countries = Vec::new();
        for _ in 0..count {
            let people = if bits == 64 { next() } else { next() % (1u64 << bits) };
            countries.push(land("x", 1.0, people));
        }
        assert_eq!(get_avg_population(&countries), Some(expected_average(&countries)));
    }
}

#[test]
fn average_population_of_the_largest_counts() {
    let mut countries = Vec::new();
    for i in 0..3_000u64 {
        countries.push(land("x", 1.0, u64::MAX - i * 0x0123_4567_89ab));
        assert_eq!(get_avg_population(&countries), Some(expected_average(&countries)));
    }
}

#[test]
fn average_population_on_ties() {
    for people in [50_000u64, 150_000, 250_000, 350_000, 450_000, 550_000, 650_000, 750_000] {
        for count in 1..8usize {
            let countries: Vec<Country> =
                (0..count).map(|i| land("x", 1.0, people + (i as u64 % 2) * 2)).collect();
            assert_eq!(get_avg_population(&countries), Some(expected_average(&countries)));
        }
    }
}

#[test]
fn languages_are_equal_by_name() {
    let dutch = Language { name: "Dutch".to_string() };
    assert!(dutch == Language { name: "Dutch".to_string() });
    assert!(dutch != Language { name: "French".to_string() });
    assert!(Language::default() == Language { name: String::new() });
}

#[test]
fn defaults_are_empty() {
    let country = Country::default();
    assert_eq!(country.name, "");
    assert_eq!(country.region, "");
    assert_eq!(country.area, Area::zero());
    assert_eq!(country.population, 0);
    assert!(country.languages.is_empty());
    let raw = CountryDTO::default();
    assert_eq!(raw.name, "");
    assert_eq!(raw.region, "");
    assert!(raw.area.is_none());
    assert_eq!(raw.population, 0);
    assert!(raw.languages.is_none());
}

#[test]
fn a_missing_area_counts_as_zero() {
    let raw = CountryDTO {
        name: "Nowhere".to_string(),
        region: "Polar".to_string(),
        area: None,
        population: 1_000,
        languages: None,
    };
    let nowhere = Country::from(raw);
    assert_eq!(nowhere.area, Area::zero());
    assert_eq!(nowhere.area.to_bits(), 0.0f32.to_bits());
    assert!(nowhere.languages.is_empty());
    let countries = [land("Aland", 1580.0, 3_000), nowhere];
    assert_eq!(
        Printer::print_summary(&countries),
        Ok(vec![
            "Average population: 0.0 mil".to_string(),
            "Country with biggest area: Aland (1580 sq mi)".to_string(),
            "Country with smallest area: Aland (1580 sq mi)".to_string(),
        ])
    );
    assert_eq!(
        get_avg_population(&[land("Aland", 1580.0, 3_000_000), Country::default()]),
        Some("1.5".to_string())
    );
    let alone = [Country::from(CountryDTO { name: "Nowhere".to_string(), ..Default::default() })];
    assert_eq!(get_biggest_area(&alone).unwrap().name, "Nowhere");
    assert!(get_smallest_area(&alone).is_none());
}

#[test]
fn a_record_is_kept_as_it_is() {
    let raw = CountryDTO {
        name: "Belgium".to_string(),
        region: "Europe".to_string(),
        area: Some(sized(30528.0)),
        population: 11_400_000,
        languages: Some(vec![
            Language { name: "Dutch".to_string() },
            Language { name: "French".to_string() },
        ]),
    };
    let country = Country::from(raw);
    assert_eq!(country.name, "Belgium");
    assert_eq!(country.region, "Europe");
    assert_eq!(f32::from_bits(country.area.to_bits()), 30528.0);
    assert_eq!(country.population, 11_400_000);
    assert_eq!(country.languages.len(), 2);
    assert_eq!(country.languages[0].name, "Dutch");
    assert_eq!(country.languages[1].name, "French");
}

#[test]
fn areas_that_are_no_areas() {
    assert!(Area::from_bits((-1.0f32).to_bits()).is_none());
    assert!(Area::from_bits((-0.0f32).to_bits()).is_none());
    assert!(Area::from_bits(f32::NAN.to_bits()).is_none());
    assert!(Area::from_bits(f32::INFINITY.to_bits()).is_none());
    assert!(Area::from_bits(f32::MAX.to_bits()).is_some());
    assert!(Area::from_bits(0).is_some());
    assert!(!Area::zero().is_positive());
    assert!(sized(f32::MIN_POSITIVE).is_positive());
    assert_eq!(Area::default(), Area::zero());
}

#[test]
fn areas_order_as_their_numbers_do() {
    let samples: [f32; 9] = [0.0, 1.0e-40, 1.0e-20, 0.1, 0.2, 1.0, 1580.0, 30528.0, 3.0e38];
    for a in samples {
        for b in samples {
            assert_eq!(sized(a).is_below(&sized(b)), a < b, "{} {}", a, b);
        }
    }
}
