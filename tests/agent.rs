use st::agent::AgentController;
use st::era::{AgentEra, AgentState};
use st::exploration::TargetGraph;
use st::fleet::{PurchaseCriteria, ShipBehaviour, ShipConfig, ShipInfo};
use st::models::LogisticsScriptConfig;

fn role(id: &str, model: &str, behaviour: ShipBehaviour) -> ShipConfig {
    ShipConfig {
        id: id.to_string(),
        ship_model: model.to_string(),
        behaviour,
        purchase_criteria: PurchaseCriteria { system_symbol: None, never_purchase: false, require_cheapest: false, allow_logistic_task: true },
    }
}

fn ship(symbol: &str, model: &str, waypoint: &str, capacity: i64) -> ShipInfo {
    ShipInfo {
        symbol: symbol.to_string(),
        model: model.to_string(),
        waypoint: waypoint.to_string(),
        system: "X1-S1".to_string(),
        in_transit: false,
        cargo_capacity: capacity,
    }
}

fn logistics() -> ShipBehaviour {
    ShipBehaviour::Logistics(LogisticsScriptConfig {
        waypoint_allowlist: None,
        allow_shipbuying: true,
        allow_market_refresh: true,
        allow_construction: true,
        min_profit: 1,
    })
}

#[test]
fn controller_refresh_assign_and_era() {
    let ships = vec![ship("H1", "SHIP_LIGHT_HAULER", "X1-S1-A", 40), ship("P1", "SHIP_PROBE", "X1-S1-B", 0)];
    let mut ac = AgentController::new(
        &"AGENT".to_string(),
        &"X1-S1".to_string(),
        1_000_000,
        ships,
        AgentState { era: AgentEra::StartingSystem1 },
        &vec![("gone".to_string(), "H1".to_string())],
        &vec![],
        &vec![],
    );
    assert!(ac.ship_assigned(&"H1".to_string()));
    let config = vec![
        role("haul/1", "SHIP_LIGHT_HAULER", logistics()),
        role("probe/B", "SHIP_PROBE", ShipBehaviour::Probe(vec!["X1-S1-B".to_string()])),
        role("haul/2", "SHIP_LIGHT_HAULER", logistics()),
    ];
    ac.refresh_ship_config(config.clone(), false);
    let first = ac.job_assignments.pairs.clone();
    let reserved = ac.ledger.effective_reserved_credits();
    ac.refresh_ship_config(config, false);
    assert_eq!(ac.job_assignments.pairs, first);
    assert_eq!(ac.ledger.effective_reserved_credits(), reserved);
    assert!(ac.job_assigned(&"haul/1".to_string()));
    assert!(ac.job_assigned(&"probe/B".to_string()));
    assert!(!ac.job_assigned(&"haul/2".to_string()));
    assert_eq!(ac.ledger.available_credits(), 1_000_000 - 10_000 - 200_000);
    assert_eq!(ac.statically_probed_waypoints(), vec![("P1".to_string(), "X1-S1-B".to_string())]);
    assert_eq!(ac.probed_waypoints(), vec![("P1".to_string(), vec!["X1-S1-B".to_string()])]);
    assert_eq!(ac.num_ships(), 2);

    // a newly bought hauler takes the free logistics role and reserves for it
    ac.ships.push(ship("H2", "SHIP_LIGHT_HAULER", "X1-S1-A", 80));
    assert!(ac.try_assign_ship(&"H2".to_string()));
    assert!(ac.job_assigned(&"haul/2".to_string()));
    assert_eq!(ac.ledger.available_credits(), 1_000_000 - 10_000 - 200_000 - 400_000);
    ac.ships.push(ship("H3", "SHIP_LIGHT_HAULER", "X1-S1-A", 80));
    assert!(!ac.try_assign_ship(&"H3".to_string()));

    // era: 390 000 available is short of the threshold
    assert!(ac.check_era_advance(None).is_empty());
    ac.update_agent(1_410_000);
    assert_eq!(ac.check_era_advance(None), vec![AgentEra::StartingSystem2]);
    assert_eq!(ac.state().era, AgentEra::StartingSystem2);
}

#[test]
fn controller_exploration_claims() {
    let mut ac = AgentController::new(&"AGENT".to_string(), &"X1-S1".to_string(), 0, vec![], AgentState { era: AgentEra::StartingSystem1 }, &vec![], &vec![("OLD".to_string(), "G0".to_string())], &vec![]);
    let gates = TargetGraph {
        symbols: vec!["G0".to_string(), "G1".to_string()],
        adj: vec![vec![(1, 3)], vec![(0, 3)]],
        flags: vec![false, false],
    };
    assert_eq!(ac.get_probe_jumpgate_reservation(&"OLD".to_string(), 1, &gates), Some("G0".to_string()));
    assert_eq!(ac.get_probe_jumpgate_reservation(&"P".to_string(), 0, &gates), Some("G1".to_string()));
    assert_eq!(ac.get_probe_jumpgate_reservation(&"Q".to_string(), 0, &gates), None);
    ac.clear_probe_jumpgate_reservation(&"P".to_string());
    assert_eq!(ac.get_probe_jumpgate_reservation(&"Q".to_string(), 0, &gates), Some("G1".to_string()));
    assert_eq!(ac.get_explorer_reservation(&"E".to_string(), 1, &gates), None);
}
