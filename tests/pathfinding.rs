use st::pathfinding::{edge, Pathfinding, RouteError, ShipFlightMode, System, WaypointDetailed};

fn wp(symbol: &str, x: i64, y: i64, is_market: bool) -> WaypointDetailed {
    WaypointDetailed { symbol: symbol.to_string(), x, y, is_market }
}

#[test]
fn edge_selection_burn_cruise_none() {
    let a = wp("X1-A", 0, 0, true);
    let b = wp("X1-B", 30, 40, true);
    assert_eq!(a.distance(&b), 50);
    let burn = edge(&a, &b, 10, 100).unwrap();
    assert_eq!(burn.flight_mode, ShipFlightMode::Burn);
    assert_eq!(burn.fuel_cost, 100);
    assert_eq!(burn.travel_duration, 78);
    assert_eq!(burn.distance, 50);
    let cruise = edge(&a, &b, 10, 50).unwrap();
    assert_eq!(cruise.flight_mode, ShipFlightMode::Cruise);
    assert_eq!(cruise.fuel_cost, 50);
    assert_eq!(cruise.travel_duration, 140);
    assert!(edge(&a, &b, 10, 49).is_none());
}

#[test]
fn burn_cruise_boundary() {
    let a = wp("X1-A", 0, 0, true);
    let b = wp("X1-B", 3, 4, true);
    assert_eq!(edge(&a, &b, 30, 10).unwrap().flight_mode, ShipFlightMode::Burn);
    assert_eq!(edge(&a, &b, 30, 9).unwrap().flight_mode, ShipFlightMode::Cruise);
    assert_eq!(edge(&a, &b, 30, 5).unwrap().flight_mode, ShipFlightMode::Cruise);
    assert!(edge(&a, &b, 30, 4).is_none());
}

#[test]
fn distance_same_and_distinct() {
    let a = wp("X1-A", 7, -3, false);
    let same_spot = wp("X1-C", 7, -3, false);
    let near = wp("X1-D", 7, -2, false);
    assert_eq!(a.distance(&a), 0);
    assert_eq!(a.distance(&same_spot), 1);
    assert_eq!(a.distance(&near), 1);
    // sqrt(2) rounds to 1, sqrt(8) to 3, sqrt(12) to 3, sqrt(13) to 4
    assert_eq!(wp("P", 0, 0, false).distance(&wp("Q", 1, 1, false)), 1);
    assert_eq!(wp("P", 0, 0, false).distance(&wp("Q", 2, 2, false)), 3);
    assert_eq!(wp("P", 0, 0, false).distance(&wp("Q", 2, 3, false)), 4);
    let s1 = System { symbol: "X1".to_string(), x: 0, y: 0 };
    let s2 = System { symbol: "X2".to_string(), x: -300, y: 400 };
    assert_eq!(s1.distance(&s1), 0);
    assert_eq!(s1.distance(&s2), 500);
}

#[test]
fn distance_large_coordinates() {
    let a = wp("A", -1_000_000_000, -1_000_000_000, false);
    let b = wp("B", 1_000_000_000, 1_000_000_000, false);
    // 2e9 * sqrt(2) = 2828427124.746...
    assert_eq!(a.distance(&b), 2_828_427_125);
}

#[test]
fn route_with_fueling() {
    let pf = Pathfinding::new(vec![
        wp("M1", 0, 0, true),
        wp("M2", 30, 40, true),
        wp("N", 50, 80, false),
    ]);
    let route = pf.get_route(&"M1".to_string(), &"N".to_string(), 10, 60, 100).ok().unwrap();
    let escape = wp("M2", 30, 40, true).distance(&wp("N", 50, 80, false));
    assert_eq!(escape, 45);
    assert_eq!(route.req_terminal_fuel, escape);
    assert_eq!(route.hops.len(), 2);
    assert_eq!(route.hops[0].0, "M2");
    assert_eq!(route.hops[0].1.flight_mode, ShipFlightMode::Burn);
    assert!(route.hops[0].2 && route.hops[0].3);
    assert_eq!(route.hops[1].0, "N");
    assert_eq!(route.hops[1].1.flight_mode, ShipFlightMode::Cruise);
    assert!(route.hops[1].1.fuel_cost <= 100 - escape);
    assert!(route.hops[1].2 && !route.hops[1].3);
    let total: i64 = route.hops.iter().map(|h| h.1.travel_duration).sum();
    assert_eq!(route.min_travel_duration, total);
    assert_eq!(route.min_travel_duration, 78 + 128);
}

#[test]
fn route_from_non_market_start_uses_start_fuel() {
    let pf = Pathfinding::new(vec![
        wp("S", 0, 0, false),
        wp("M1", 10, 0, true),
        wp("M2", 40, 0, true),
    ]);
    // start fuel 20 allows Burn to M1 (cost 20) but not to M2 (cost 40 > 20, 40 > 20)
    let route = pf.get_route(&"S".to_string(), &"M2".to_string(), 10, 20, 100).ok().unwrap();
    assert_eq!(route.hops.len(), 2);
    assert_eq!(route.hops[0].0, "M1");
    assert!(!route.hops[0].2);
    assert!(route.hops[0].1.fuel_cost <= 20);
    assert_eq!(route.req_terminal_fuel, 0);
}

#[test]
fn route_errors() {
    let pf = Pathfinding::new(vec![wp("M1", 0, 0, true), wp("M2", 1000, 0, true)]);
    assert!(matches!(pf.get_route(&"M1".to_string(), &"ZZ".to_string(), 10, 0, 100), Err(RouteError::UnknownWaypoint)));
    assert!(matches!(pf.get_route(&"M1".to_string(), &"M2".to_string(), 10, 0, 100), Err(RouteError::NoRoute)));
    let lonely = Pathfinding::new(vec![wp("A", 0, 0, false), wp("B", 1, 0, false)]);
    assert!(matches!(lonely.get_route(&"A".to_string(), &"B".to_string(), 10, 100, 100), Err(RouteError::NoRoute)));
}

#[test]
fn route_to_itself_is_empty() {
    let pf = Pathfinding::new(vec![wp("M1", 0, 0, true)]);
    let route = pf.get_route(&"M1".to_string(), &"M1".to_string(), 10, 0, 100).ok().unwrap();
    assert_eq!(route.hops.len(), 0);
    assert_eq!(route.min_travel_duration, 0);
}

#[test]
fn closest_market_is_kept_for_non_markets() {
    let pf = Pathfinding::new(vec![
        wp("M1", 0, 0, true),
        wp("N", 10, 0, false),
        wp("M2", 13, 0, true),
    ]);
    assert_eq!(pf.closest_market[0], None);
    assert_eq!(pf.closest_market[1], Some((2, 3)));
}
