use countries::area::Area;
use countries::country::Country;
use countries::sorter::{bytes_precede, comes_before, sort_countries_by, SortBy, SortOptions};

fn spot(name: &str, area: f32, population: u64) -> Country {
    Country {
        name: name.to_string(),
        region: String::new(),
        area: Area::from_bits(area.to_bits()).expect("a finite area that is not negative"),
        population,
        languages: Vec::new(),
    }
}

fn names_of(countries: &[Country]) -> Vec<String> {
    countries.iter().map(|country| country.name.clone()).collect()
}

fn sample() -> Vec<Country> {
    vec![
        spot("Norway", 323802.0, 5_367_580),
        spot("Åland Islands", 1580.0, 28_875),
        spot("Belgium", 30528.0, 11_555_997),
        spot("Monaco", 2.02, 39_244),
        spot("Aruba", 180.0, 106_766),
        spot("Zambia", 752612.0, 18_383_956),
        spot("Belarus", 207600.0, 9_398_861),
    ]
}

#[test]
fn sort_by_area_keeps_two_sorted_countries() {
    let mut countries = vec![spot("Aland", 1580.0, 28_875), spot("Belgium", 30528.0, 11_400_000)];
    sort_countries_by(&mut countries, &SortOptions { sort_by: Some(SortBy::Area) });
    assert_eq!(names_of(&countries), ["Aland", "Belgium"]);
}

#[test]
fn sort_by_name_is_ascending() {
    let mut countries = sample();
    sort_countries_by(&mut countries, &SortOptions { sort_by: Some(SortBy::Name) });
    assert_eq!(
        names_of(&countries),
        ["Aruba", "Belarus", "Belgium", "Monaco", "Norway", "Zambia", "Åland Islands"]
    );
    for pair in countries.windows(2) {
        assert!(pair[0].name <= pair[1].name);
    }
}

#[test]
fn sort_by_population_is_ascending() {
    let mut countries = sample();
    sort_countries_by(&mut countries, &SortOptions { sort_by: Some(SortBy::Population) });
    assert_eq!(
        names_of(&countries),
        ["Åland Islands", "Monaco", "Aruba", "Norway", "Belarus", "Belgium", "Zambia"]
    );
    for pair in countries.windows(2) {
        assert!(pair[0].population <= pair[1].population);
    }
}

#[test]
fn sort_by_area_is_ascending() {
    let mut countries = sample();
    sort_countries_by(&mut countries, &SortOptions { sort_by: Some(SortBy::Area) });
    assert_eq!(
        names_of(&countries),
        ["Monaco", "Aruba", "Åland Islands", "Belgium", "Belarus", "Norway", "Zambia"]
    );
}

#[test]
fn no_key_no_sorting() {
    let mut countries = sample();
    sort_countries_by(&mut countries, &SortOptions { sort_by: None });
    assert_eq!(names_of(&countries), names_of(&sample()));
}

#[test]
fn ties_keep_their_order() {
    let mut countries = vec![
        spot("d", 2.0, 7),
        spot("b", 1.0, 7),
        spot("c", 2.0, 3),
        spot("b", 1.0, 3),
        spot("a", 2.0, 7),
    ];
    sort_countries_by(&mut countries, &SortOptions { sort_by: Some(SortBy::Population) });
    assert_eq!(names_of(&countries), ["c", "b", "d", "b", "a"]);
    sort_countries_by(&mut countries, &SortOptions { sort_by: Some(SortBy::Area) });
    assert_eq!(names_of(&countries), ["b", "b", "c", "d", "a"]);
    let populations: Vec<u64> = countries.iter().map(|country| country.population).collect();
    assert_eq!(populations, [3, 7, 3, 7, 7]);
    sort_countries_by(&mut countries, &SortOptions { sort_by: Some(SortBy::Name) });
    assert_eq!(names_of(&countries), ["a", "b", "b", "c", "d"]);
    let populations: Vec<u64> = countries.iter().map(|country| country.population).collect();
    assert_eq!(populations, [7, 3, 7, 3, 7]);
}

#[test]
fn sorting_agrees_with_the_standard_stable_sort() {
    let mut seed: u64 = 0x2545_f491_4f6c_dd1d;
    let mut countries = Vec::new();
    for i in 0..200 {
        seed ^= seed << 13;
        seed ^= seed >> 7;
        seed ^= seed << 17;
        let name = format!("{}{}", ["x", "é", "Z", "z", ""][(seed % 5) as usize], seed % 13);
        countries.push(spot(&name, (seed % 17) as f32 / 4.0, (seed >> 20) % 11 + i % 2));
    }
    for by in [SortBy::Name, SortBy::Population, SortBy::Area] {
        let mut expected: Vec<(String, u32, u64)> = countries
            .iter()
            .map(|country| (country.name.clone(), country.area.to_bits(), country.population))
            .collect();
        match by {
            SortBy::Name => expected.sort_by_key(|entry| entry.0.clone()),
            SortBy::Population => expected.sort_by_key(|entry| entry.2),
            SortBy::Area => expected.sort_by_key(|entry| entry.1),
        }
        let mut sorted: Vec<Country> = countries
            .iter()
            .map(|country| spot(&country.name, f32::from_bits(country.area.to_bits()), country.population))
            .collect();
        sort_countries_by(&mut sorted, &SortOptions { sort_by: Some(by) });
        let got: Vec<(String, u32, u64)> = sorted
            .iter()
            .map(|country| (country.name.clone(), country.area.to_bits(), country.population))
            .collect();
        assert_eq!(got, expected);
    }
}

#[test]
fn bytes_are_compared_as_in_a_dictionary() {
    assert!(bytes_precede(b"", b"a"));
    assert!(!bytes_precede(b"", b""));
    assert!(!bytes_precede(b"a", b""));
    assert!(bytes_precede(b"Belarus", b"Belgium"));
    assert!(!bytes_precede(b"Belgium", b"Belarus"));
    assert!(bytes_precede(b"Bel", b"Belgium"));
    assert!(!bytes_precede(b"Belgium", b"Belgium"));
    assert!(bytes_precede("Zambia".as_bytes(), "Åland".as_bytes()));
}

#[test]
fn countries_are_compared_by_the_chosen_key() {
    let a = spot("b", 1.0, 9);
    let b = spot("a", 2.0, 9);
    assert!(!comes_before(SortBy::Name, &a, &b));
    assert!(comes_before(SortBy::Name, &b, &a));
    assert!(comes_before(SortBy::Area, &a, &b));
    assert!(!comes_before(SortBy::Area, &b, &a));
    assert!(!comes_before(SortBy::Population, &a, &b));
    assert!(!comes_before(SortBy::Population, &b, &a));
}
