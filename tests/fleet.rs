use st::era::{check_era_advance, parse_era, AgentEra, AgentState};
use st::fleet::{next_unfilled_role, ship_config_plan, ConfigError, ConfigPlan, choose_runner, probed_waypoints, RunnerError, ShipRunner, statically_probed_waypoints, JobAssignments, PurchaseCriteria, ShipBehaviour, ShipConfig, ShipInfo};
use st::ledger::Ledger;
use st::models::LogisticsScriptConfig;
use st::procurement::{after_buy_attempt, BuyRoundStep, refresh_reservations, job_credit_reservation, try_buy_ship, BuyShipResult, ShipyardOffer};

fn criteria(never: bool, cheapest: bool, allow_task: bool) -> PurchaseCriteria {
    PurchaseCriteria { system_symbol: None, never_purchase: never, require_cheapest: cheapest, allow_logistic_task: allow_task }
}

fn logistics() -> ShipBehaviour {
    ShipBehaviour::Logistics(LogisticsScriptConfig {
        waypoint_allowlist: None,
        allow_shipbuying: true,
        allow_market_refresh: true,
        allow_construction: true,
        min_profit: 1,
    })
}

fn role(id: &str, model: &str, behaviour: ShipBehaviour) -> ShipConfig {
    ShipConfig { id: id.to_string(), ship_model: model.to_string(), behaviour, purchase_criteria: criteria(false, false, true) }
}

fn ship(symbol: &str, model: &str, waypoint: &str) -> ShipInfo {
    ShipInfo {
        symbol: symbol.to_string(),
        model: model.to_string(),
        waypoint: waypoint.to_string(),
        system: "X1-S1".to_string(),
        in_transit: false,
        cargo_capacity: 40,
    }
}

fn offer(wp: &str, price: i64) -> ShipyardOffer {
    ShipyardOffer { waypoint: wp.to_string(), price }
}

#[test]
fn era_advance() {
    let ledger = Ledger::new(799_999);
    let mut state = AgentState::default();
    let entered = check_era_advance(&mut state, None, ledger.available_credits());
    assert!(entered.is_empty());
    assert_eq!(state.era, AgentEra::StartingSystem1);
    let ledger = Ledger::new(800_000);
    let entered = check_era_advance(&mut state, None, ledger.available_credits());
    assert_eq!(entered, vec![AgentEra::StartingSystem2]);
    assert_eq!(state.era, AgentEra::StartingSystem2);
    let entered = check_era_advance(&mut state, None, 5_000_000);
    assert!(entered.is_empty());
    assert_eq!(state.era, AgentEra::StartingSystem2);
}

#[test]
fn era_override_and_parse() {
    let mut state = AgentState { era: AgentEra::StartingSystem2 };
    assert_eq!(check_era_advance(&mut state, Some(AgentEra::StartingSystem1), 0), vec![AgentEra::StartingSystem1]);
    assert_eq!(state.era, AgentEra::StartingSystem1);
    assert!(check_era_advance(&mut state, Some(AgentEra::StartingSystem1), 10_000_000).is_empty());
    assert_eq!(parse_era(&"InterSystem1".to_string()), Some(AgentEra::InterSystem1));
    assert_eq!(parse_era(&"StartingSystem2".to_string()), Some(AgentEra::StartingSystem2));
    assert_eq!(parse_era(&"Late".to_string()), None);
}

#[test]
fn buy_blocked_by_reservation() {
    let mut ledger = Ledger::new(350_000);
    ledger.reserve_credits(&"HAULER-1".to_string(), 40 * 5000);
    ledger.reserve_credits(&"HAULER-2".to_string(), 40 * 5000);
    assert_eq!(ledger.available_credits(), -50_000);
    let job = role("logistics/2", "SHIP_LIGHT_HAULER", logistics());
    let reservation = job_credit_reservation(&job.behaviour, 40);
    assert_eq!(reservation, 200_000);
    let ships = vec![ship("PROBE-1", "SHIP_PROBE", "X1-S1-Y")];
    let r = try_buy_ship(&job, &vec![offer("X1-S1-Y", 150_000)], ledger.available_credits(), reservation, &ships, &vec!["PROBE-1".to_string()], &None);
    assert!(matches!(r, BuyShipResult::FailedLowCredits));
}

#[test]
fn buy_decisions() {
    let job = role("probe/1", "SHIP_PROBE", ShipBehaviour::SiphonDrone);
    let offers = vec![offer("Y1", 30_000), offer("Y2", 20_000), offer("Y3", 25_000)];
    let ships = vec![ship("P1", "SHIP_PROBE", "Y3"), ship("P2", "SHIP_PROBE", "Y1")];
    let probes = vec!["P1".to_string(), "P2".to_string()];
    // cheapest with a purchaser present, among the affordable
    match try_buy_ship(&job, &offers, 100_000, 0, &ships, &probes, &None) {
        BuyShipResult::Buy { shipyard, purchaser } => {
            assert_eq!(shipyard, 2);
            assert_eq!(purchaser, "P1");
        }
        _ => panic!("expected a purchase"),
    }
    // only the cheapest may be used: no purchaser there
    let mut strict = job.clone();
    strict.purchase_criteria.require_cheapest = true;
    match try_buy_ship(&strict, &offers, 100_000, 0, &ships, &probes, &None) {
        BuyShipResult::FailedNoPurchaser(Some(wp)) => assert_eq!(wp, "Y2"),
        _ => panic!("expected no purchaser"),
    }
    strict.purchase_criteria.allow_logistic_task = false;
    assert!(matches!(try_buy_ship(&strict, &offers, 100_000, 0, &ships, &probes, &None), BuyShipResult::FailedNoPurchaser(None)));
    // the asking ship counts as a purchaser
    let at_y2 = vec![ship("H1", "SHIP_LIGHT_HAULER", "Y2")];
    match try_buy_ship(&strict, &offers, 100_000, 0, &at_y2, &vec![], &Some("H1".to_string())) {
        BuyShipResult::Buy { shipyard, purchaser } => {
            assert_eq!(shipyard, 1);
            assert_eq!(purchaser, "H1");
        }
        _ => panic!("expected a purchase"),
    }
    assert!(matches!(try_buy_ship(&job, &vec![], 100_000, 0, &ships, &probes, &None), BuyShipResult::FailedNoShipyards));
    let mut never = job.clone();
    never.purchase_criteria.never_purchase = true;
    assert!(matches!(try_buy_ship(&never, &offers, 100_000, 0, &ships, &probes, &None), BuyShipResult::FailedNeverPurchase));
    // only Y2 affordable, nobody there
    match try_buy_ship(&job, &offers, 22_000, 0, &ships, &probes, &None) {
        BuyShipResult::FailedNoPurchaser(Some(wp)) => assert_eq!(wp, "Y2"),
        _ => panic!("expected no purchaser"),
    }
}

#[test]
fn ledger_goods_keep_reservation_neutral() {
    let mut ledger = Ledger::new(1_000_000);
    let key = "HAULER-1".to_string();
    ledger.reserve_credits(&key, 200_000);
    assert_eq!(ledger.available_credits(), 800_000);
    // buying 10 units at 1000 spends 10 000 credits and turns them into cargo
    ledger.set_credits(990_000);
    ledger.register_goods_change(&key, &"X".to_string(), 10, 1000);
    assert_eq!(ledger.effective_reserved_credits(), 190_000);
    assert_eq!(ledger.available_credits(), 800_000);
    ledger.register_goods_change(&key, &"X".to_string(), -10, 1000);
    assert_eq!(ledger.effective_reserved_credits(), 200_000);
    ledger.reserve_credits(&"FUEL".to_string(), 10_000);
    ledger.reserve_credits(&key, 0);
    assert_eq!(ledger.effective_reserved_credits(), 10_000);
    assert!(ledger.has_key(&key));
}

#[test]
fn assignments_refresh_is_idempotent() {
    let configs = vec![
        role("probe/A", "SHIP_PROBE", ShipBehaviour::Probe(vec!["A".to_string()])),
        role("probe/B", "SHIP_PROBE", ShipBehaviour::Probe(vec!["B".to_string()])),
        role("haul/1", "SHIP_LIGHT_HAULER", logistics()),
    ];
    let ships = vec![
        ship("S1", "SHIP_PROBE", "A"),
        ship("S2", "SHIP_LIGHT_HAULER", "H"),
        ship("S3", "SHIP_PROBE", "B"),
        ship("S4", "SHIP_PROBE", "C"),
    ];
    let mut a = JobAssignments::new();
    a.pairs.push(("gone/1".to_string(), "S4".to_string()));
    a.pairs.push(("haul/1".to_string(), "S9".to_string()));
    a.refresh_assignments(&configs, &ships);
    let first = a.pairs.clone();
    assert_eq!(
        first,
        vec![
            ("probe/A".to_string(), "S1".to_string()),
            ("haul/1".to_string(), "S2".to_string()),
            ("probe/B".to_string(), "S3".to_string()),
        ]
    );
    assert!(!a.ship_assigned(&"S4".to_string()));
    assert_eq!(a.job_of(&"S3".to_string()), Some("probe/B".to_string()));
    assert_eq!(a.ship_of(&"haul/1".to_string()), Some("S2".to_string()));
    a.refresh_assignments(&configs, &ships);
    assert_eq!(a.pairs, first);
    let statics = statically_probed_waypoints(&configs, &a, &ships, &"X1-S1".to_string());
    assert_eq!(statics, vec![("S1".to_string(), "A".to_string()), ("S3".to_string(), "B".to_string())]);
}

#[test]
fn try_assign_takes_first_free_role() {
    let configs = vec![
        role("p/1", "SHIP_PROBE", ShipBehaviour::SiphonDrone),
        role("p/2", "SHIP_PROBE", ShipBehaviour::SiphonDrone),
    ];
    let mut a = JobAssignments::new();
    assert_eq!(a.try_assign_ship(&"S1".to_string(), &"SHIP_PROBE".to_string(), &configs), Some(0));
    assert_eq!(a.try_assign_ship(&"S2".to_string(), &"SHIP_PROBE".to_string(), &configs), Some(1));
    assert_eq!(a.try_assign_ship(&"S3".to_string(), &"SHIP_PROBE".to_string(), &configs), None);
    assert_eq!(a.try_assign_ship(&"S4".to_string(), &"SHIP_HAULER".to_string(), &configs), None);
    assert!(a.job_assigned(&"p/2".to_string()));
    assert!(a.ship_assigned(&"S2".to_string()));
}

#[test]
fn runner_choice() {
    let configs = vec![
        role("probe/A", "SHIP_PROBE", ShipBehaviour::Probe(vec!["A".to_string(), "B".to_string()])),
        role("haul/1", "SHIP_LIGHT_HAULER", logistics()),
    ];
    let mut a = JobAssignments::new();
    a.pairs.push(("probe/A".to_string(), "S1".to_string()));
    a.pairs.push(("haul/1".to_string(), "S2".to_string()));
    a.pairs.push(("old/9".to_string(), "S3".to_string()));
    let all = ".*".to_string();
    let probes_only = "^probe/".to_string();
    assert_eq!(choose_runner(&"S2".to_string(), &a, &configs, false, false, &all, true), Ok(ShipRunner::Run(1)));
    assert_eq!(choose_runner(&"S2".to_string(), &a, &configs, false, false, &probes_only, true), Ok(ShipRunner::Idle));
    assert_eq!(choose_runner(&"S1".to_string(), &a, &configs, false, false, &probes_only, true), Ok(ShipRunner::Run(0)));
    assert_eq!(choose_runner(&"S1".to_string(), &a, &configs, false, false, &all, false), Ok(ShipRunner::Idle));
    assert_eq!(choose_runner(&"S1".to_string(), &a, &configs, true, false, &all, true), Ok(ShipRunner::Scrap));
    assert_eq!(choose_runner(&"S9".to_string(), &a, &configs, false, true, &all, true), Ok(ShipRunner::Scrap));
    assert_eq!(choose_runner(&"S9".to_string(), &a, &configs, false, false, &all, true), Ok(ShipRunner::Idle));
    assert_eq!(choose_runner(&"S3".to_string(), &a, &configs, false, false, &all, true), Err(RunnerError::UnknownRole));
    assert_eq!(choose_runner(&"S2".to_string(), &a, &configs, false, false, &"(".to_string(), true), Err(RunnerError::InvalidFilter));
    let probed = probed_waypoints(&configs, &a);
    assert_eq!(probed, vec![("S1".to_string(), vec!["A".to_string(), "B".to_string()])]);
}

#[test]
fn unfilled_roles_and_config_plans() {
    let configs = vec![
        role("p/1", "SHIP_PROBE", ShipBehaviour::SiphonDrone),
        role("p/2", "SHIP_PROBE", ShipBehaviour::SiphonDrone),
    ];
    let mut a = JobAssignments::from_pairs(&vec![
        ("p/1".to_string(), "S1".to_string()),
        ("p/1".to_string(), "S2".to_string()),
    ]);
    assert_eq!(a.pairs, vec![("p/1".to_string(), "S1".to_string())]);
    assert_eq!(next_unfilled_role(&configs, &a), Some(1));
    a.try_assign_ship(&"S2".to_string(), &"SHIP_PROBE".to_string(), &configs);
    assert_eq!(next_unfilled_role(&configs, &a), None);
    assert_eq!(
        ship_config_plan(AgentEra::StartingSystem1, false),
        Ok(ConfigPlan { use_nonstatic_probes: true, include_outer_probes_and_siphons: false })
    );
    assert_eq!(
        ship_config_plan(AgentEra::StartingSystem2, false),
        Ok(ConfigPlan { use_nonstatic_probes: true, include_outer_probes_and_siphons: true })
    );
    assert_eq!(ship_config_plan(AgentEra::InterSystem1, false), Err(ConfigError::CapitalSystemUnsupported));
    assert_eq!(ship_config_plan(AgentEra::InterSystem2, false), Err(ConfigError::LateGameUnsupported));
    assert_eq!(ship_config_plan(AgentEra::StartingSystem1, true), Err(ConfigError::NoGateUnsupported));
}

#[test]
fn standing_reservations() {
    let configs = vec![
        role("haul/1", "SHIP_LIGHT_HAULER", logistics()),
        role("p/1", "SHIP_PROBE", ShipBehaviour::SiphonDrone),
    ];
    let ships = vec![ship("H1", "SHIP_LIGHT_HAULER", "A"), ship("P1", "SHIP_PROBE", "B")];
    let mut a = JobAssignments::new();
    a.refresh_assignments(&configs, &ships);
    let mut ledger = Ledger::new(1_000_000);
    refresh_reservations(&mut ledger, &configs, &a, &ships, false);
    assert_eq!(ledger.effective_reserved_credits(), 10_000 + 200_000);
    refresh_reservations(&mut ledger, &configs, &a, &ships, true);
    assert_eq!(ledger.effective_reserved_credits(), 10_000 + 500_000 + 200_000);
    assert_eq!(ledger.available_credits(), 290_000);
}

#[test]
fn buy_round_steps() {
    assert!(matches!(after_buy_attempt(&BuyShipResult::Buy { shipyard: 0, purchaser: "P".to_string() }), BuyRoundStep::TryNextRole));
    assert!(matches!(after_buy_attempt(&BuyShipResult::FailedLowCredits), BuyRoundStep::Stop(None)));
    match after_buy_attempt(&BuyShipResult::FailedNoPurchaser(Some("Y".to_string()))) {
        BuyRoundStep::Stop(Some(wp)) => assert_eq!(wp, "Y"),
        _ => panic!("expected the shipyard to be named"),
    }
}
