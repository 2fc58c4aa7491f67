use flight_routes::airport::{Airport, AirportType, Frequencies, ICAO, Runway};
use flight_routes::geo::{distance_milli_nm, Position};
use flight_routes::route::{Range, Route, SearchError, Speed, Time, TimeOrDistance};

fn airport(icao: &str, class: AirportType, lat_udeg: i64, lon_udeg: i64, country: &str,
    runway_len: Option<u32>) -> Airport {
    Airport {
        icao: ICAO(icao.to_string()),
        class,
        position: Position::new(lat_udeg, lon_udeg),
        runways: vec![Runway {
            length_ft: runway_len,
            width_ft: None,
            he_marker: None,
            le_marker: None,
        }],
        frequencies: Frequencies::new(),
        country_name: country.to_string(),
    }
}

fn catalog() -> Vec<Airport> {
    vec![
        airport("KSAC", AirportType::Medium, 38_512_000, -121_492_000, "United States",
            Some(3836)),
        airport("KSFO", AirportType::Large, 37_618_000, -122_375_000, "United States",
            Some(7500)),
        airport("RJAA", AirportType::Large, 35_764_000, 140_386_000, "Japan", Some(8202)),
    ]
}

#[test]
fn golden_distance_ksfo_rjaa() {
    let ksfo = Position::new(37_618_000, -122_375_000);
    let rjaa = Position::new(35_764_000, 140_386_000);
    // The Haversine formula, applied verbatim to these coordinates with
    // an Earth radius of 3440 nautical miles, gives 4442.49 nm.
    assert_eq!(distance_milli_nm(ksfo, rjaa), 4_442_493);
}

#[test]
fn golden_route_at_mach_085() {
    let airports = catalog();
    let route = Route::create(&airports, 1, 2, Speed::Mach(850));
    assert_eq!(route.from, 1);
    assert_eq!(route.to, 2);
    assert_eq!(route.distance, 4_442_493);
    assert_eq!(route.time, Time { hour: 7, minutes: 50 });
}

#[test]
fn distance_is_symmetric() {
    let ksac = Position::new(38_512_000, -121_492_000);
    let ksfo = Position::new(37_618_000, -122_375_000);
    let rjaa = Position::new(35_764_000, 140_386_000);
    assert_eq!(distance_milli_nm(ksac, ksfo), distance_milli_nm(ksfo, ksac));
    assert_eq!(distance_milli_nm(ksfo, rjaa), distance_milli_nm(rjaa, ksfo));
    assert_eq!(distance_milli_nm(ksac, rjaa), distance_milli_nm(rjaa, ksac));
    assert_eq!(distance_milli_nm(ksac, ksfo), 67_992);
    assert_eq!(distance_milli_nm(ksac, rjaa), 4_447_981);
}

#[test]
fn distance_to_self_is_zero() {
    let ksfo = Position::new(37_618_000, -122_375_000);
    assert_eq!(distance_milli_nm(ksfo, ksfo), 0);
}

#[test]
fn time_clamps_at_99_hours() {
    // 15000 nm at 100 knots is 150 hours of flight: the display clamps.
    let t = Time::from_distance(15_000_000, Speed::Knots(100));
    assert_eq!(t, Time { hour: 99, minutes: 59 });
}

#[test]
fn time_just_under_the_clamp() {
    // 9950 nm at 100 knots is 99.5 hours: 99 hours and 30 minutes.
    let t = Time::from_distance(9_950_000, Speed::Knots(100));
    assert_eq!(t, Time { hour: 99, minutes: 30 });
}

#[test]
fn time_minutes_clamp_past_the_hour_ceiling() {
    // 100.5 hours: the hour clamps to 99 and the leftover 90 minutes
    // clamp to 59.
    let t = Time::from_distance(10_050_000, Speed::Knots(100));
    assert_eq!(t, Time { hour: 99, minutes: 59 });
}

#[test]
fn time_at_zero_speed_saturates() {
    let t = Time::from_distance(1_000, Speed::Knots(0));
    assert_eq!(t, Time { hour: 99, minutes: 59 });
}

#[test]
fn time_new_clamps_fields() {
    assert_eq!(Time::new(7, 53), Time { hour: 7, minutes: 53 });
    assert_eq!(Time::new(150, 200), Time { hour: 99, minutes: 59 });
}

#[test]
fn speed_normalization() {
    assert_eq!(Speed::Mach(850).as_knots(), 566_728);
    assert_eq!(Speed::Mach(1000).as_knots(), 666_739);
    assert_eq!(Speed::Knots(500).as_knots(), 500_000);
}

#[test]
fn route_from_icao_resolves_both_ends() {
    let airports = catalog();
    let route = Route::from_icao("KSAC", "KSFO", Speed::Knots(500), &airports).unwrap();
    assert_eq!(route.from, 0);
    assert_eq!(route.to, 1);
    assert_eq!(route.distance, 67_992);
    assert_eq!(route.time, Time { hour: 0, minutes: 8 });
}

#[test]
fn route_from_icao_reports_which_end_is_missing() {
    let airports = catalog();
    assert_eq!(
        Route::from_icao("ZZZZ", "KSFO", Speed::Knots(500), &airports),
        Err(SearchError::DepartureNotFound)
    );
    assert_eq!(
        Route::from_icao("KSAC", "ZZZZ", Speed::Knots(500), &airports),
        Err(SearchError::ArrivalNotFound)
    );
    assert_eq!(SearchError::DepartureNotFound.message(), "departure not found");
    assert_eq!(SearchError::ArrivalNotFound.message(), "arrival not found");
}

#[test]
fn route_filter_distance_range() {
    let airports = catalog();
    let long_haul = Route::create(&airports, 1, 2, Speed::Mach(850));
    let short_hop = Route::create(&airports, 0, 1, Speed::Mach(850));

    let wide = Some(TimeOrDistance::Distance(Range {
        min: Some(4_000_000),
        max: Some(5_000_000),
    }));
    assert!(long_haul.matches_filters(&wide));
    assert!(!short_hop.matches_filters(&wide));
    assert!(long_haul.matches_filters(&None));
    assert!(short_hop.matches_filters(&None));
}

#[test]
fn route_filter_time_range_is_lexicographic() {
    let airports = catalog();
    // 7 hours 50 minutes at Mach 0.85.
    let route = Route::create(&airports, 1, 2, Speed::Mach(850));

    let in_range = Some(TimeOrDistance::Time(Range {
        min: Some(Time { hour: 7, minutes: 0 }),
        max: Some(Time { hour: 8, minutes: 0 }),
    }));
    assert!(route.matches_filters(&in_range));

    let above = Some(TimeOrDistance::Time(Range {
        min: Some(Time { hour: 7, minutes: 51 }),
        max: None,
    }));
    assert!(!route.matches_filters(&above));

    let below = Some(TimeOrDistance::Time(Range {
        min: None,
        max: Some(Time { hour: 7, minutes: 49 }),
    }));
    assert!(!route.matches_filters(&below));

    // The bounds compare by (hour, minutes), and both are inclusive.
    let exact = Some(TimeOrDistance::Time(Range {
        min: Some(Time { hour: 7, minutes: 50 }),
        max: Some(Time { hour: 7, minutes: 50 }),
    }));
    assert!(route.matches_filters(&exact));
}
