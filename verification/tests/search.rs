use flight_routes::airport::{catalog_is_wf, find_by_icao, Airport, AirportType, Frequencies,
    ICAO, Runway};
use flight_routes::filter::{AirportFilters, Countries};
use flight_routes::geo::Position;
use flight_routes::route::{Filters, Range, SearchError, Speed, Time, TimeOrDistance};
use flight_routes::search::{find, find_all, search_routes, SortBy};

fn airport(icao: &str, class: AirportType, lat_udeg: i64, lon_udeg: i64, country: &str)
    -> Airport {
    Airport {
        icao: ICAO(icao.to_string()),
        class,
        position: Position::new(lat_udeg, lon_udeg),
        runways: vec![Runway {
            length_ft: Some(8000),
            width_ft: None,
            he_marker: None,
            le_marker: None,
        }],
        frequencies: Frequencies::new(),
        country_name: country.to_string(),
    }
}

fn catalog() -> Vec<Airport> {
    vec![
        airport("KSAC", AirportType::Medium, 38_512_000, -121_492_000, "United States"),
        airport("KSFO", AirportType::Large, 37_618_000, -122_375_000, "United States"),
        airport("RJAA", AirportType::Large, 35_764_000, 140_386_000, "Japan"),
    ]
}

fn icao_filter(code: &str) -> AirportFilters {
    AirportFilters {
        icao: Some(code.to_string()),
        airport_type: AirportType::Unknown,
        runway_length: None,
        countries: Countries(vec![]),
    }
}

fn open_filter() -> AirportFilters {
    AirportFilters {
        icao: None,
        airport_type: AirportType::Unknown,
        runway_length: None,
        countries: Countries(vec![]),
    }
}

#[test]
fn catalog_validation() {
    assert!(catalog_is_wf(&catalog()));

    let unsorted = vec![
        airport("KSFO", AirportType::Large, 37_618_000, -122_375_000, "United States"),
        airport("KSAC", AirportType::Medium, 38_512_000, -121_492_000, "United States"),
    ];
    assert!(!catalog_is_wf(&unsorted));

    let duplicated = vec![
        airport("KSAC", AirportType::Medium, 38_512_000, -121_492_000, "United States"),
        airport("KSAC", AirportType::Medium, 38_512_000, -121_492_000, "United States"),
    ];
    assert!(!catalog_is_wf(&duplicated));

    let out_of_range = vec![airport("KSAC", AirportType::Medium, 91_000_000, 0,
        "United States")];
    assert!(!catalog_is_wf(&out_of_range));
}

#[test]
fn build_catalog_sorts_dedups_and_filters() {
    let records = vec![
        airport("KSFO", AirportType::Large, 37_618_000, -122_375_000, "United States"),
        airport("RJAA", AirportType::Large, 35_764_000, 140_386_000, "Japan"),
        airport("KSAC", AirportType::Medium, 38_512_000, -121_492_000, "United States"),
        // A duplicate identifier: only one survives.
        airport("KSFO", AirportType::Small, 37_618_000, -122_375_000, "United States"),
        // A latitude beyond 90 degrees: rejected before the catalog.
        Airport {
            icao: ICAO("XBAD".to_string()),
            class: AirportType::Small,
            position: Position { lat_udeg: 95_000_000, lon_udeg: 0 },
            runways: vec![],
            frequencies: Frequencies::new(),
            country_name: "United States".to_string(),
        },
    ];

    let catalog = flight_routes::airport::build_catalog(records);
    assert!(catalog_is_wf(&catalog));
    let icaos: Vec<&str> = catalog.iter().map(|a| a.icao.0.as_str()).collect();
    assert_eq!(icaos, vec!["KSAC", "KSFO", "RJAA"]);
}

#[test]
fn lookup_by_icao() {
    let airports = catalog();
    assert_eq!(find_by_icao("KSAC", &airports), Some(0));
    assert_eq!(find_by_icao("KSFO", &airports), Some(1));
    assert_eq!(find_by_icao("RJAA", &airports), Some(2));
    assert_eq!(find_by_icao("ZZZZ", &airports), None);
    assert_eq!(find_by_icao("", &airports), None);
}

#[test]
fn search_identifier_to_identifier() {
    let airports = catalog();
    let filters = Filters {
        speed: Speed::Knots(500),
        departure: Some(icao_filter("KSAC")),
        arrival: Some(icao_filter("KSFO")),
        time_or_dist: None,
    };

    let routes = search_routes(&filters, &airports).unwrap();
    assert_eq!(routes.len(), 1);
    assert_eq!(routes[0].from, 0);
    assert_eq!(routes[0].to, 1);
    assert_eq!(routes[0].distance, 67_992);
    assert_eq!(routes[0].time, Time { hour: 0, minutes: 8 });
}

#[test]
fn search_excludes_self_pairs() {
    let airports = catalog();
    let filters = Filters {
        speed: Speed::Knots(500),
        departure: Some(icao_filter("KSAC")),
        arrival: Some(icao_filter("KSAC")),
        time_or_dist: None,
    };

    let routes = search_routes(&filters, &airports).unwrap();
    assert!(routes.is_empty());

    let unfiltered = Filters {
        speed: Speed::Knots(500),
        departure: None,
        arrival: None,
        time_or_dist: None,
    };
    let routes = search_routes(&unfiltered, &airports).unwrap();
    for route in &routes {
        assert_ne!(route.from, route.to);
        assert_ne!(airports[route.from].icao.0, airports[route.to].icao.0);
    }
}

#[test]
fn search_without_filters_pairs_the_whole_sample() {
    let airports = catalog();
    let filters = Filters {
        speed: Speed::Knots(500),
        departure: None,
        arrival: None,
        time_or_dist: None,
    };

    // Three airports: the random sample is the whole catalog, and every
    // ordered pair but the self-pairs yields a route.
    let routes = search_routes(&filters, &airports).unwrap();
    assert_eq!(routes.len(), 6);
}

#[test]
fn search_counts_hold_with_a_sampled_side() {
    let airports = catalog();

    // Three airports: a sampled side always covers the whole catalog,
    // so the kept set is the same whichever indices the draw ordered.
    let dep_only = Filters {
        speed: Speed::Knots(500),
        departure: Some(open_filter()),
        arrival: None,
        time_or_dist: None,
    };
    assert_eq!(search_routes(&dep_only, &airports).unwrap().len(), 6);

    let arr_only = Filters {
        speed: Speed::Knots(500),
        departure: None,
        arrival: Some(open_filter()),
        time_or_dist: None,
    };
    assert_eq!(search_routes(&arr_only, &airports).unwrap().len(), 6);

    let dep_fixed = Filters {
        speed: Speed::Knots(500),
        departure: Some(icao_filter("KSAC")),
        arrival: None,
        time_or_dist: None,
    };
    let routes = search_routes(&dep_fixed, &airports).unwrap();
    assert_eq!(routes.len(), 2);
    assert!(routes.iter().all(|r| r.from == 0));
}

#[test]
fn search_reports_unknown_identifiers() {
    let airports = catalog();
    let bad_departure = Filters {
        speed: Speed::Knots(500),
        departure: Some(icao_filter("ZZZZ")),
        arrival: Some(icao_filter("KSFO")),
        time_or_dist: None,
    };
    assert_eq!(search_routes(&bad_departure, &airports), Err(SearchError::DepartureNotFound));

    let bad_arrival = Filters {
        speed: Speed::Knots(500),
        departure: Some(icao_filter("KSAC")),
        arrival: Some(icao_filter("ZZZZ")),
        time_or_dist: None,
    };
    assert_eq!(search_routes(&bad_arrival, &airports), Err(SearchError::ArrivalNotFound));
}

#[test]
fn search_applies_the_distance_constraint() {
    let airports = catalog();
    let filters = Filters {
        speed: Speed::Mach(850),
        departure: Some(open_filter()),
        arrival: Some(open_filter()),
        time_or_dist: Some(TimeOrDistance::Distance(Range {
            min: Some(4_000_000),
            max: None,
        })),
    };

    // Only the transpacific pairs are 4000 nm or longer.
    let routes = search_routes(&filters, &airports).unwrap();
    assert_eq!(routes.len(), 4);
    for route in &routes {
        assert!(route.distance >= 4_000_000);
        assert!(route.from == 2 || route.to == 2);
    }
}

#[test]
fn search_caps_the_result_count() {
    // Sixteen airports in a grid: 16 x 15 = 240 candidate routes, far
    // over the cap.
    let mut airports = Vec::new();
    for i in 0..16u8 {
        let name = format!("KA{:02}", i);
        airports.push(airport(
            &name,
            AirportType::Small,
            10_000_000 + (i as i64) * 1_000_000,
            -100_000_000 + (i as i64) * 1_000_000,
            "United States",
        ));
    }
    assert!(catalog_is_wf(&airports));

    let filters = Filters {
        speed: Speed::Knots(400),
        departure: Some(open_filter()),
        arrival: Some(open_filter()),
        time_or_dist: None,
    };

    let routes = search_routes(&filters, &airports).unwrap();
    assert_eq!(routes.len(), 100);
    for route in &routes {
        assert_ne!(route.from, route.to);
        assert!(route.from < airports.len() && route.to < airports.len());
        // Each returned route is a faithfully evaluated pair, not an
        // artifact of the trimming step.
        let expected = flight_routes::geo::distance_milli_nm(
            airports[route.from].position,
            airports[route.to].position,
        );
        assert_eq!(route.distance, expected);
    }
    // A selection without replacement: no kept pair appears twice.
    let mut pairs: Vec<(usize, usize)> = routes.iter().map(|r| (r.from, r.to)).collect();
    pairs.sort_unstable();
    pairs.dedup();
    assert_eq!(pairs.len(), 100);
}

#[test]
fn search_empty_catalog_yields_empty_list() {
    let airports: Vec<Airport> = Vec::new();
    assert!(catalog_is_wf(&airports));

    let filters = Filters {
        speed: Speed::Knots(500),
        departure: None,
        arrival: None,
        time_or_dist: None,
    };
    assert_eq!(search_routes(&filters, &airports), Ok(vec![]));
}

#[test]
fn search_empty_candidates_is_success_not_error() {
    let airports = catalog();
    let nowhere = AirportFilters {
        icao: None,
        airport_type: AirportType::Unknown,
        runway_length: None,
        countries: Countries(vec!["France".to_string()]),
    };
    let filters = Filters {
        speed: Speed::Knots(500),
        departure: Some(nowhere),
        arrival: None,
        time_or_dist: None,
    };
    assert_eq!(search_routes(&filters, &airports), Ok(vec![]));
}

#[test]
fn find_resolves_an_identifier() {
    let airports = catalog();
    assert_eq!(find(&icao_filter("KSFO"), &airports), Some(1));
    assert_eq!(find(&icao_filter("ZZZZ"), &airports), None);
}

#[test]
fn find_picks_only_matching_airports() {
    let airports = catalog();
    let japan = AirportFilters {
        icao: None,
        airport_type: AirportType::Unknown,
        runway_length: None,
        countries: Countries(vec!["Japan".to_string()]),
    };
    assert_eq!(find(&japan, &airports), Some(2));

    let nowhere = AirportFilters {
        icao: None,
        airport_type: AirportType::Unknown,
        runway_length: None,
        countries: Countries(vec!["France".to_string()]),
    };
    assert_eq!(find(&nowhere, &airports), None);

    let large = AirportFilters {
        icao: None,
        airport_type: AirportType::Large,
        runway_length: None,
        countries: Countries(vec![]),
    };
    let picked = find(&large, &airports).unwrap();
    assert!(picked == 1 || picked == 2);
}

#[test]
fn find_all_sorts_by_distance() {
    let airports = catalog();
    // From Narita, San Francisco (4442.49 nm) is nearer than Sacramento
    // (4447.98 nm).
    let routes = find_all(2, &None, Speed::Mach(850), &None, SortBy::Distance, &airports);
    assert_eq!(routes.len(), 2);
    assert_eq!(routes[0].to, 1);
    assert_eq!(routes[1].to, 0);
    assert_eq!(routes[0].distance, 4_442_493);
    assert_eq!(routes[1].distance, 4_447_981);
}

#[test]
fn find_all_sorts_by_arrival_icao() {
    let airports = catalog();
    // By identifier, KSAC sorts before KSFO.
    let routes = find_all(2, &None, Speed::Mach(850), &None, SortBy::ArrICAO, &airports);
    assert_eq!(routes.len(), 2);
    assert_eq!(routes[0].to, 0);
    assert_eq!(routes[1].to, 1);
}

#[test]
fn find_all_applies_the_arrival_filter() {
    let airports = catalog();
    let large = AirportFilters {
        icao: None,
        airport_type: AirportType::Large,
        runway_length: None,
        countries: Countries(vec![]),
    };
    let routes = find_all(0, &Some(large), Speed::Knots(450), &None, SortBy::Distance,
        &airports);
    assert_eq!(routes.len(), 2);
    assert!(routes.iter().all(|r| r.from == 0));
    assert!(routes.iter().all(|r| r.to == 1 || r.to == 2));
}
