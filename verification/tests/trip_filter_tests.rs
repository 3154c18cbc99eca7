use commute_filter::data::{Date, Provider, Trip};
use commute_filter::trip_filter::{trip_station_filter, trip_workday_filter};

fn leg(date: Date, from: &str, to: &str, price: u64) -> Trip {
    Trip::new(date, Provider::NS, from.to_string(), to.to_string(), price)
}

#[test]
fn test_trip_station_filter_simple() {
    let date = Date { year: 2025, month: 6, day: 24 };

    let all_trips = vec![
        leg(date, "Hilversum", "Amsterdam Centraal", 500), // match
        leg(date, "Amsterdam Zuid", "Hilversum", 500),     // match
        leg(date, "Hilversum", "Utrecht Centraal", 500),   // no match
        leg(date, "Rotterdam", "Hilversum", 500),          // no match
    ];

    let from_stations = vec!["Hilversum".to_string()];
    let to_stations = vec!["Amsterdam Centraal".to_string(), "Amsterdam Zuid".to_string()];

    let filtered = trip_station_filter(all_trips, from_stations, to_stations);

    assert_eq!(filtered.len(), 2);
    assert!(filtered
        .iter()
        .any(|t| t.from == "Hilversum" && t.to == "Amsterdam Centraal"));
    assert!(filtered
        .iter()
        .any(|t| t.from == "Amsterdam Zuid" && t.to == "Hilversum"));
}

#[test]
fn test_trip_filter_multi_leg() {
    let date = Date { year: 2025, month: 6, day: 24 };

    let all_trips = vec![
        leg(date, "Hilversum", "Duivendrecht", 300),           // match
        leg(date, "Duivendrecht", "Amsterdam Centraal", 400),  // match
        leg(date, "Amsterdam Centraal", "Duivendrecht", 400),  // match
        leg(date, "Duivendrecht", "Hilversum", 300),           // match
        leg(date, "Utrecht Centraal", "Rotterdam", 1000),      // no match
    ];

    let from_stations = vec!["Hilversum".to_string()];
    let to_stations = vec!["Amsterdam Centraal".to_string()];

    let filtered = trip_station_filter(all_trips, from_stations, to_stations);

    assert_eq!(filtered.len(), 4);

    assert!(filtered
        .iter()
        .any(|t| t.from == "Hilversum" && t.to == "Duivendrecht"));
    assert!(filtered
        .iter()
        .any(|t| t.from == "Duivendrecht" && t.to == "Amsterdam Centraal"));
    assert!(filtered
        .iter()
        .any(|t| t.from == "Amsterdam Centraal" && t.to == "Duivendrecht"));
    assert!(filtered
        .iter()
        .any(|t| t.from == "Duivendrecht" && t.to == "Hilversum"));
}

#[test]
fn multi_leg_output_keeps_input_order() {
    let date = Date { year: 2025, month: 6, day: 24 };
    let all_trips = vec![
        leg(date, "Hilversum", "Duivendrecht", 300),
        leg(date, "Duivendrecht", "Amsterdam Centraal", 400),
        leg(date, "Amsterdam Centraal", "Duivendrecht", 400),
        leg(date, "Duivendrecht", "Hilversum", 300),
    ];
    let filtered = trip_station_filter(
        all_trips,
        vec!["Hilversum".to_string()],
        vec!["Amsterdam Centraal".to_string()],
    );
    let endpoints: Vec<(String, String)> = filtered
        .iter()
        .map(|t| (t.from.clone(), t.to.clone()))
        .collect();
    assert_eq!(
        endpoints,
        vec![
            ("Hilversum".to_string(), "Duivendrecht".to_string()),
            ("Duivendrecht".to_string(), "Amsterdam Centraal".to_string()),
            ("Amsterdam Centraal".to_string(), "Duivendrecht".to_string()),
            ("Duivendrecht".to_string(), "Hilversum".to_string()),
        ]
    );
}

#[test]
fn three_leg_chain_is_emitted_whole() {
    let date = Date { year: 2025, month: 6, day: 24 };
    let all_trips = vec![
        leg(date, "Hilversum", "Weesp", 200),
        leg(date, "Weesp", "Duivendrecht", 200),
        leg(date, "Duivendrecht", "Amsterdam Centraal", 300),
        leg(date, "Weesp", "Hilversum", 200), // departs outside both sets: ignored
    ];
    let filtered = trip_station_filter(
        all_trips,
        vec!["Hilversum".to_string()],
        vec!["Amsterdam Centraal".to_string()],
    );
    assert_eq!(filtered.len(), 3);
    assert_eq!(filtered[0].from, "Hilversum");
    assert_eq!(filtered[1].from, "Weesp");
    assert_eq!(filtered[2].to, "Amsterdam Centraal");
}

#[test]
fn zero_fare_leg_is_invisible() {
    let date = Date { year: 2025, month: 6, day: 24 };
    let all_trips = vec![
        leg(date, "Hilversum", "Duivendrecht", 300),
        leg(date, "Surcharge", "Surcharge", 0), // decoy row: skipped entirely
        leg(date, "Duivendrecht", "Amsterdam Centraal", 400),
    ];
    let filtered = trip_station_filter(
        all_trips,
        vec!["Hilversum".to_string()],
        vec!["Amsterdam Centraal".to_string()],
    );
    assert_eq!(filtered.len(), 2);
    assert_eq!(filtered[0].from, "Hilversum");
    assert_eq!(filtered[1].to, "Amsterdam Centraal");
    assert!(filtered.iter().all(|t| t.price != 0));
}

#[test]
fn broken_chain_is_discarded_and_breaker_reevaluated() {
    let date = Date { year: 2025, month: 6, day: 24 };
    let all_trips = vec![
        leg(date, "Almere Centrum", "Weesp", 250), // opens a chain, never completed
        leg(date, "Duivendrecht", "Diemen Zuid", 150), // breaks it, is itself a direct match
    ];
    let filtered = trip_station_filter(
        all_trips,
        vec!["Almere Centrum".to_string(), "Duivendrecht".to_string()],
        vec!["Diemen Zuid".to_string()],
    );
    assert_eq!(filtered.len(), 1);
    assert_eq!(filtered[0].from, "Duivendrecht");
    assert_eq!(filtered[0].to, "Diemen Zuid");
}

#[test]
fn chain_does_not_cross_dates() {
    let d1 = Date { year: 2025, month: 6, day: 24 };
    let d2 = Date { year: 2025, month: 6, day: 25 };
    let all_trips = vec![
        leg(d1, "Hilversum", "Duivendrecht", 300),
        // station adjacency holds, but the date changed: the chain is dropped
        leg(d2, "Duivendrecht", "Amsterdam Centraal", 400),
    ];
    let filtered = trip_station_filter(
        all_trips,
        vec!["Hilversum".to_string()],
        vec!["Amsterdam Centraal".to_string()],
    );
    assert_eq!(filtered.len(), 0);
}

#[test]
fn unterminated_chain_is_dropped() {
    let date = Date { year: 2025, month: 6, day: 24 };
    let all_trips = vec![leg(date, "Hilversum", "Duivendrecht", 300)];
    let filtered = trip_station_filter(
        all_trips,
        vec!["Hilversum".to_string()],
        vec!["Amsterdam Centraal".to_string()],
    );
    assert_eq!(filtered.len(), 0);
}

#[test]
fn empty_input_gives_empty_output() {
    let filtered = trip_station_filter(
        Vec::new(),
        vec!["Hilversum".to_string()],
        vec!["Amsterdam Centraal".to_string()],
    );
    assert!(filtered.is_empty());
}

#[test]
fn direct_match_with_overlapping_sets() {
    let date = Date { year: 2025, month: 6, day: 24 };
    // "Duivendrecht" sits in both sets; the direct match is still emitted
    let all_trips = vec![leg(date, "Hilversum", "Duivendrecht", 300)];
    let filtered = trip_station_filter(
        all_trips,
        vec!["Hilversum".to_string(), "Duivendrecht".to_string()],
        vec!["Duivendrecht".to_string()],
    );
    assert_eq!(filtered.len(), 1);
}

#[test]
fn refiltering_the_output_changes_nothing() {
    let date = Date { year: 2025, month: 6, day: 24 };
    let all_trips = vec![
        leg(date, "Hilversum", "Duivendrecht", 300),
        leg(date, "Duivendrecht", "Amsterdam Centraal", 400),
        leg(date, "Hilversum", "Utrecht Centraal", 500),
        leg(date, "Amsterdam Centraal", "Hilversum", 500),
    ];
    let from = vec!["Hilversum".to_string()];
    let to = vec!["Amsterdam Centraal".to_string()];
    let once = trip_station_filter(all_trips, from.clone(), to.clone());
    let again = trip_station_filter(once.clone(), from, to);
    assert_eq!(once.len(), again.len());
    for (a, b) in once.iter().zip(again.iter()) {
        assert_eq!(a.from, b.from);
        assert_eq!(a.to, b.to);
        assert_eq!(a.price, b.price);
        assert_eq!(a.date, b.date);
    }
}

#[test]
fn weekday_numbers_are_exact() {
    // 2025-06-23 was a Monday, 2025-06-29 a Sunday
    assert_eq!(Date { year: 2025, month: 6, day: 23 }.weekday_number_from_monday(), 1);
    assert_eq!(Date { year: 2025, month: 6, day: 24 }.weekday_number_from_monday(), 2);
    assert_eq!(Date { year: 2025, month: 6, day: 29 }.weekday_number_from_monday(), 7);
    // 1970-01-01 was a Thursday; 2024-02-29 (a leap day) a Thursday too
    assert_eq!(Date { year: 1970, month: 1, day: 1 }.weekday_number_from_monday(), 4);
    assert_eq!(Date { year: 2024, month: 2, day: 29 }.weekday_number_from_monday(), 4);
    // 2000-01-01 was a Saturday
    assert_eq!(Date { year: 2000, month: 1, day: 1 }.weekday_number_from_monday(), 6);
}

#[test]
fn workday_filter_keeps_weekdays_only() {
    let mon = Date { year: 2025, month: 6, day: 23 };
    let sat = Date { year: 2025, month: 6, day: 28 };
    let sun = Date { year: 2025, month: 6, day: 29 };
    let all_trips = vec![
        leg(mon, "Hilversum", "Amsterdam Centraal", 500),
        leg(sat, "Hilversum", "Amsterdam Centraal", 500),
        leg(sun, "Amsterdam Centraal", "Hilversum", 500),
    ];
    let kept = trip_workday_filter(all_trips);
    assert_eq!(kept.len(), 1);
    assert_eq!(kept[0].date, mon);
}

#[test]
fn trip_new_and_clone_keep_fields() {
    let date = Date { year: 2025, month: 1, day: 6 };
    let t = Trip::new(
        date,
        Provider::GVB,
        "Waterlooplein".to_string(),
        "Centraal Station".to_string(),
        190,
    );
    let c = t.clone();
    assert_eq!(c.date, date);
    assert_eq!(c.provider, Provider::GVB);
    assert_eq!(c.from, "Waterlooplein");
    assert_eq!(c.to, "Centraal Station");
    assert_eq!(c.price, 190);
}
