use flight_routes::airport::{AirportType, FrequencyType, Frequencies, ICAO};
use flight_routes::data::DataType;
use flight_routes::filter::{Countries, RunwayLength};
use flight_routes::text::{eq_ignore_ascii_case, str_cmp, str_eq};

#[test]
fn airport_type_from_str_defaults_to_unknown() {
    assert_eq!(AirportType::from_str("large_airport"), AirportType::Large);
    assert_eq!(AirportType::from_str("medium_airport"), AirportType::Medium);
    assert_eq!(AirportType::from_str("small_airport"), AirportType::Small);
    assert_eq!(AirportType::from_str("closed"), AirportType::Closed);
    assert_eq!(AirportType::from_str("heliport"), AirportType::Heliport);
    assert_eq!(AirportType::from_str("seaplane_base"), AirportType::SeaplaneBase);
    assert_eq!(AirportType::from_str("balloonport"), AirportType::Unknown);
    assert_eq!(AirportType::from_str(""), AirportType::Unknown);
}

#[test]
fn airport_type_parse_rejects_unknown() {
    assert_eq!(AirportType::parse("large_airport"), Some(AirportType::Large));
    assert_eq!(AirportType::parse("balloonport"), None);
    assert_eq!(AirportType::parse(""), None);
}

#[test]
fn frequency_type_from_str() {
    assert_eq!(FrequencyType::from_str("ATIS"), FrequencyType::Atis);
    assert_eq!(FrequencyType::from_str("APP"), FrequencyType::Arrival);
    assert_eq!(FrequencyType::from_str("ARR"), FrequencyType::Arrival);
    assert_eq!(FrequencyType::from_str("DEP"), FrequencyType::Departure);
    assert_eq!(FrequencyType::from_str("A/D"), FrequencyType::ArrivalDeparture);
    assert_eq!(FrequencyType::from_str("GND"), FrequencyType::Ground);
    assert_eq!(FrequencyType::from_str("GROUND"), FrequencyType::Ground);
    assert_eq!(FrequencyType::from_str("TWR"), FrequencyType::Tower);
    assert_eq!(FrequencyType::from_str("TOWER"), FrequencyType::Tower);
    assert_eq!(FrequencyType::from_str("UNIC"), FrequencyType::Unicom);
    assert_eq!(FrequencyType::from_str("UNICOM"), FrequencyType::Unicom);
    assert_eq!(FrequencyType::from_str("CTAF"), FrequencyType::Other);

    assert!(FrequencyType::Other.is_other());
    assert!(!FrequencyType::Tower.is_other());
}

#[test]
fn frequencies_record_by_kind() {
    let mut freqs = Frequencies::new();
    freqs.set(FrequencyType::Tower, "120.5".to_string());
    freqs.set(FrequencyType::Atis, "128.65".to_string());
    freqs.set(FrequencyType::Other, "999.9".to_string());
    assert_eq!(freqs.tower.as_deref(), Some("120.5"));
    assert_eq!(freqs.atis.as_deref(), Some("128.65"));
    assert_eq!(freqs.ground, None);
    assert_eq!(freqs.unicom, None);
}

#[test]
fn runway_length_parse() {
    assert_eq!(RunwayLength::parse("<7000"), Some(RunwayLength::LessThan(7000)));
    assert_eq!(RunwayLength::parse(">7000"), Some(RunwayLength::GreaterThan(7000)));
    assert_eq!(RunwayLength::parse("=3836"), Some(RunwayLength::Equal(3836)));
    assert_eq!(RunwayLength::parse("7000"), None);
    assert_eq!(RunwayLength::parse("<"), None);
    assert_eq!(RunwayLength::parse(""), None);
    assert_eq!(RunwayLength::parse("<12x4"), None);
    assert_eq!(RunwayLength::parse("~7000"), None);
    // A threshold too large for the representation is rejected.
    assert_eq!(RunwayLength::parse("<4294967295"), Some(RunwayLength::LessThan(4294967295)));
    assert_eq!(RunwayLength::parse("<4294967296"), None);
}

#[test]
fn icao_parse_rejects_only_empty() {
    assert_eq!(ICAO::parse("KSFO").map(|c| c.0), Some("KSFO".to_string()));
    assert!(ICAO::parse("").is_none());
}

#[test]
fn countries_empty_list_allows_anything() {
    let none = Countries(vec![]);
    assert!(none.any_match("United States"));
    assert!(none.any_match(""));

    let listed = Countries(vec!["United States".to_string(), "Japan".to_string()]);
    assert!(listed.any_match("japan"));
    assert!(listed.any_match("UNITED STATES"));
    assert!(!listed.any_match("France"));
}

#[test]
fn data_type_filenames() {
    assert_eq!(DataType::Airports.filename(), "airports.csv");
    assert_eq!(DataType::Runways.filename(), "runways.csv");
    assert_eq!(DataType::Frequencies.filename(), "airport-frequencies.csv");
    assert_eq!(DataType::Countries.filename(), "countries.csv");
}

#[test]
fn string_comparison_is_lexicographic() {
    assert_eq!(str_cmp("KSAC", "KSFO"), -1);
    assert_eq!(str_cmp("KSFO", "KSAC"), 1);
    assert_eq!(str_cmp("KSFO", "KSFO"), 0);
    assert_eq!(str_cmp("KS", "KSFO"), -1);
    assert_eq!(str_cmp("", "A"), -1);
    assert!(str_eq("RJAA", "RJAA"));
    assert!(!str_eq("RJAA", "RJA"));
}

#[test]
fn case_insensitive_comparison_folds_ascii_only() {
    assert!(eq_ignore_ascii_case("United States", "uNiTeD sTaTeS"));
    assert!(eq_ignore_ascii_case("", ""));
    assert!(!eq_ignore_ascii_case("United States", "United State"));
    assert!(!eq_ignore_ascii_case("Japan", "Japon"));
}
