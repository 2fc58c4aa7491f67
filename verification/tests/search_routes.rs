use flight_routes::airport::{Airport, AirportType, Frequencies, ICAO, RunwayMarker, Runway};
use flight_routes::filter::{AirportFilters, Countries, RunwayLength};
use flight_routes::geo::Position;
use flight_routes::route::{Range, Time};

fn runway(length_ft: Option<u32>, width_ft: Option<u32>, he: &str, le: &str) -> Runway {
    Runway {
        length_ft,
        width_ft,
        he_marker: Some(RunwayMarker::new(he.to_string(), Position::new(0, 0))),
        le_marker: Some(RunwayMarker::new(le.to_string(), Position::new(0, 0))),
    }
}

/// Three airports, sorted ascending by ICAO as the catalog invariant
/// requires.
fn get_airports() -> Vec<Airport> {
    // Sacramento Executive
    let ksac = Airport {
        icao: ICAO("KSAC".to_string()),
        class: AirportType::Medium,
        position: Position::new(38_512_000, -121_492_000),
        runways: vec![runway(Some(3836), Some(100), "12", "30")],
        frequencies: Frequencies::new(),
        country_name: "United States".to_string(),
    };

    // San Francisco
    let ksfo = Airport {
        icao: ICAO("KSFO".to_string()),
        class: AirportType::Large,
        position: Position::new(37_618_000, -122_375_000),
        runways: vec![runway(Some(7500), Some(200), "01L", "19R")],
        frequencies: Frequencies::new(),
        country_name: "United States".to_string(),
    };

    // Narita
    let rjaa = Airport {
        icao: ICAO("RJAA".to_string()),
        class: AirportType::Large,
        position: Position::new(35_764_000, 140_386_000),
        runways: vec![runway(Some(8202), Some(196), "16L", "34R")],
        frequencies: Frequencies::new(),
        country_name: "Japan".to_string(),
    };

    vec![ksac, ksfo, rjaa]
}

fn result_icaos(airports: &Vec<Airport>, result: &Vec<usize>) -> Vec<String> {
    result.iter().map(|&i| airports[i].icao.0.clone()).collect()
}

fn assert_expected_icaos(airports: &Vec<Airport>, result: Vec<usize>, expected: &[&str]) {
    let found = result_icaos(airports, &result);

    assert!(
        !found.is_empty(),
        "expected to get airports {:?}, got nothing",
        expected
    );

    assert_eq!(
        expected.len(),
        found.len(),
        "expected to get {} airport(s) ({:?}), got {} ({:?})",
        expected.len(),
        expected,
        found.len(),
        found
    );

    let has_expected_arpts = found.iter().all(|icao| expected.contains(&icao.as_str()));

    assert!(
        has_expected_arpts,
        "expected to get airports {:?}, got {:?}",
        expected,
        found
    );
}

#[test]
fn range_within() {
    fn within(min: Option<u64>, max: Option<u64>, value: u64) -> bool {
        Range { min, max }.within(&value)
    }

    assert_eq!(within(Some(1), Some(3), 2), true);
    assert_eq!(within(Some(2), Some(3), 2), true);
    assert_eq!(within(Some(2), Some(3), 3), true);

    assert_eq!(within(Some(1), Some(5), 10), false);
    assert_eq!(within(Some(10), Some(100), 9), false);
}

#[test]
fn runway_length_fits() {
    assert_eq!(RunwayLength::Equal(12345).fits(12345), true);
    assert_eq!(RunwayLength::Equal(12345).fits(12346), false);

    assert_eq!(RunwayLength::GreaterThan(1000).fits(1001), true);
    assert_eq!(RunwayLength::GreaterThan(1000).fits(1000), false);

    assert_eq!(RunwayLength::LessThan(1000).fits(999), true);
    assert_eq!(RunwayLength::LessThan(1000).fits(1000), false);
}

#[test]
fn filter_icao() {
    const EXPECTED_ICAO: &'static str = "KSAC";

    let airports = get_airports();

    let filter = AirportFilters {
        icao: Some(EXPECTED_ICAO.to_string()),
        airport_type: AirportType::Unknown,
        runway_length: None,
        countries: Countries(vec![]),
    };

    assert_expected_icaos(&airports, filter.matching_airports(&airports), &[EXPECTED_ICAO]);
}

#[test]
fn filter_airport_type() {
    const EXPECTED_TYPE: AirportType = AirportType::Large;
    const EXPECTED_ICAOS: [&'static str; 2] = ["KSFO", "RJAA"];

    let airports = get_airports();

    let filter = AirportFilters {
        icao: None,
        airport_type: EXPECTED_TYPE,
        runway_length: None,
        countries: Countries(vec![]),
    };

    assert_expected_icaos(&airports, filter.matching_airports(&airports), &EXPECTED_ICAOS);
}

#[test]
fn filter_runway_length_gt() {
    const EXPECTED_ICAOS: [&'static str; 2] = ["KSFO", "RJAA"];

    let airports = get_airports();

    let filter = AirportFilters {
        icao: None,
        airport_type: AirportType::Unknown,
        runway_length: Some(RunwayLength::GreaterThan(7000)),
        countries: Countries(vec![]),
    };

    assert_expected_icaos(&airports, filter.matching_airports(&airports), &EXPECTED_ICAOS);
}

#[test]
fn filter_runway_length_eq() {
    const EXPECTED_ICAOS: [&'static str; 1] = ["KSAC"];

    let airports = get_airports();

    let filter = AirportFilters {
        icao: None,
        airport_type: AirportType::Unknown,
        runway_length: Some(RunwayLength::Equal(3836)),
        countries: Countries(vec![]),
    };

    assert_expected_icaos(&airports, filter.matching_airports(&airports), &EXPECTED_ICAOS);
}

#[test]
fn filter_runway_length_lt() {
    const EXPECTED_ICAOS: [&'static str; 2] = ["KSFO", "KSAC"];

    let airports = get_airports();

    let filter = AirportFilters {
        icao: None,
        airport_type: AirportType::Unknown,
        runway_length: Some(RunwayLength::LessThan(7501)),
        countries: Countries(vec![]),
    };

    assert_expected_icaos(&airports, filter.matching_airports(&airports), &EXPECTED_ICAOS);
}

#[test]
fn filter_countries() {
    let airports = get_airports();

    let mut filter = AirportFilters {
        icao: None,
        airport_type: AirportType::Unknown,
        runway_length: None,
        countries: Countries(vec!["United States".to_string()]),
    };

    assert_expected_icaos(&airports, filter.matching_airports(&airports), &["KSFO", "KSAC"]);

    filter.countries = Countries(vec!["Japan".to_string()]);
    assert_expected_icaos(&airports, filter.matching_airports(&airports), &["RJAA"]);

    filter.countries = Countries(vec!["United States".to_string(), "Japan".to_string()]);

    assert_expected_icaos(
        &airports,
        filter.matching_airports(&airports),
        &["KSFO", "KSAC", "RJAA"],
    );
}

#[test]
fn filter_vacuous_matches_all() {
    let airports = get_airports();

    let filter = AirportFilters {
        icao: None,
        airport_type: AirportType::Unknown,
        runway_length: None,
        countries: Countries(vec![]),
    };

    assert_expected_icaos(
        &airports,
        filter.matching_airports(&airports),
        &["KSAC", "KSFO", "RJAA"],
    );
}

#[test]
fn filter_unknown_runway_length_never_matches() {
    let airports = vec![Airport {
        icao: ICAO("EDDF".to_string()),
        class: AirportType::Large,
        position: Position::new(50_033_000, 8_570_000),
        runways: vec![runway(None, None, "07C", "25C")],
        frequencies: Frequencies::new(),
        country_name: "Germany".to_string(),
    }];

    for filter in [
        RunwayLength::Equal(0),
        RunwayLength::GreaterThan(0),
        RunwayLength::LessThan(90000),
    ] {
        let filters = AirportFilters {
            icao: None,
            airport_type: AirportType::Unknown,
            runway_length: Some(filter),
            countries: Countries(vec![]),
        };
        assert!(filters.matching_airports(&airports).is_empty());
    }
}

#[test]
fn filter_countries_ignores_ascii_case() {
    let airports = get_airports();

    let filter = AirportFilters {
        icao: None,
        airport_type: AirportType::Unknown,
        runway_length: None,
        countries: Countries(vec!["uNiTeD sTaTeS".to_string()]),
    };

    assert_expected_icaos(&airports, filter.matching_airports(&airports), &["KSAC", "KSFO"]);
}

#[test]
fn filter_icao_unknown_gives_nothing() {
    let airports = get_airports();

    let filter = AirportFilters {
        icao: Some("ZZZZ".to_string()),
        airport_type: AirportType::Unknown,
        runway_length: None,
        countries: Countries(vec![]),
    };

    assert!(filter.matching_airports(&airports).is_empty());
}
