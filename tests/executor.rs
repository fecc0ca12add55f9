use st::executor::{extract_outcome, start_round, ExtractOutcome, RoundStart, cargo_fuel_used, check_cargo, hop_required_fuel, refuel_units, CargoCheck, ScheduleProgress};
use st::exploration::{Reservations, TargetGraph};
use st::models::{Action, ScheduledAction};

fn step(wp: &str, action: Action) -> ScheduledAction {
    ScheduledAction { timestamp: 0, waypoint: wp.to_string(), action, completes_task_id: None }
}

fn cargo(items: &[(&str, i64)]) -> Vec<(String, i64)> {
    items.iter().map(|(g, u)| (g.to_string(), *u)).collect()
}

#[test]
fn cargo_reconciliation() {
    let schedule = vec![
        step("M1", Action::BuyGoods("X".to_string(), 40)),
        step("M2", Action::SellGoods("X".to_string(), 40)),
        step("M3", Action::RefreshMarket),
    ];
    assert_eq!(check_cargo(&schedule, 0, &cargo(&[])), CargoCheck::Consistent);
    assert_eq!(check_cargo(&schedule, 0, &cargo(&[("X", 40)])), CargoCheck::SkipNextAction);
    assert_eq!(check_cargo(&schedule, 1, &cargo(&[("X", 40)])), CargoCheck::Consistent);
    assert_eq!(check_cargo(&schedule, 1, &cargo(&[])), CargoCheck::SkipNextAction);
    assert_eq!(check_cargo(&schedule, 1, &cargo(&[("X", 40), ("FUEL", 3)])), CargoCheck::SellExcessFuel);
    assert_eq!(check_cargo(&schedule, 2, &cargo(&[("FUEL", 3)])), CargoCheck::SellExcessFuel);
    assert_eq!(check_cargo(&schedule, 1, &cargo(&[("X", 39)])), CargoCheck::Mismatch);
    assert_eq!(check_cargo(&schedule, 2, &cargo(&[("Y", 1)])), CargoCheck::Mismatch);
    assert_eq!(check_cargo(&schedule, 2, &cargo(&[("X", 0)])), CargoCheck::Mismatch);
}

#[test]
fn refuel_amounts() {
    assert_eq!(refuel_units(400, 400, 300, false, 0), None);
    assert_eq!(refuel_units(50, 400, 300, false, 0), Some(300));
    assert_eq!(refuel_units(50, 400, 390, false, 0), Some(350));
    assert_eq!(refuel_units(50, 400, 300, true, 2), Some(200));
    assert_eq!(refuel_units(50, 400, 300, true, 0), None);
    assert_eq!(cargo_fuel_used(0), 0);
    assert_eq!(cargo_fuel_used(1), 1);
    assert_eq!(cargo_fuel_used(100), 1);
    assert_eq!(cargo_fuel_used(101), 2);
    assert_eq!(hop_required_fuel(50, true, 45), 50);
    assert_eq!(hop_required_fuel(50, false, 45), 95);
}

#[test]
fn schedule_progress_checkpoints() {
    let mut p = ScheduleProgress::resume(3, 1);
    assert_eq!(p.record_executed(), 1);
    assert_eq!(p.record_executed(), 2);
    assert_eq!(p.progress, 3);
}

#[test]
fn probe_and_explorer_reservations() {
    // gates: 0 -> 1 (cost 1) -> 2 (cost 1); 0 -> 3 (cost 5); gate 1 is charted
    let gates = TargetGraph {
        symbols: vec!["G0".to_string(), "G1".to_string(), "G2".to_string(), "G3".to_string()],
        adj: vec![vec![(1, 1), (3, 5)], vec![(2, 1)], vec![], vec![]],
        flags: vec![false, true, false, false],
    };
    let mut res = Reservations::new();
    assert_eq!(res.get_probe_jumpgate_reservation(&"P1".to_string(), 0, &gates), Some("G2".to_string()));
    assert_eq!(res.get_probe_jumpgate_reservation(&"P2".to_string(), 0, &gates), Some("G3".to_string()));
    assert_eq!(res.get_probe_jumpgate_reservation(&"P1".to_string(), 0, &gates), Some("G2".to_string()));
    assert_eq!(res.get_probe_jumpgate_reservation(&"P3".to_string(), 0, &gates), None);
    res.clear(&"P1".to_string());
    assert_eq!(res.get_probe_jumpgate_reservation(&"P3".to_string(), 0, &gates), Some("G2".to_string()));

    // systems: the explorer's own starter system counts, at distance 0
    let systems = TargetGraph {
        symbols: vec!["S0".to_string(), "S1".to_string(), "S2".to_string()],
        adj: vec![vec![(1, 10), (2, 3)], vec![], vec![]],
        flags: vec![true, true, false],
    };
    let mut ex = Reservations::new();
    assert_eq!(ex.get_explorer_reservation(&"E1".to_string(), 0, &systems), Some("S0".to_string()));
    assert_eq!(ex.get_explorer_reservation(&"E2".to_string(), 0, &systems), Some("S1".to_string()));
    assert_eq!(ex.get_explorer_reservation(&"E3".to_string(), 0, &systems), None);
}

#[test]
fn round_start_and_extraction() {
    assert_eq!(start_round(Some(3), Some(1), 5), RoundStart::Resume(1));
    assert_eq!(start_round(Some(3), Some(3), 5), RoundStart::SellFuelThenPlan(5));
    assert_eq!(start_round(None, None, 0), RoundStart::Plan);
    assert_eq!(extract_outcome(201, None), ExtractOutcome::Extracted);
    assert_eq!(extract_outcome(400, Some(4221)), ExtractOutcome::DropSurvey);
    assert_eq!(extract_outcome(409, Some(4224)), ExtractOutcome::DropSurvey);
    assert_eq!(extract_outcome(409, Some(4000)), ExtractOutcome::Fatal);
    assert_eq!(extract_outcome(500, Some(4221)), ExtractOutcome::Fatal);
}
