use st::construction::{construction_policy, FABRICATOR_IRON_CAP, ConstructionMaterial, ConstructionSite};
use st::ledger::Ledger;
use st::models::{
    Action, LogisticsScriptConfig, ScheduledAction, MarketActivity, MarketEntry, MarketSnapshot, MarketSupply,
    MarketTradeGood, MarketType, ShipyardEntry, Task, TaskActions,
};
use st::tasks::{
    arbitrage_task, generate_task_list, sorted_distinct_goods, is_task_allowed, market_refresh_value, task_id_prefix,
    ConstructionPolicy, LogisticTaskManager,
};

fn good(symbol: &str, t: MarketType, supply: MarketSupply, activity: Option<MarketActivity>, tv: i64, buy: i64, sell: i64) -> MarketTradeGood {
    MarketTradeGood {
        symbol: symbol.to_string(),
        trade_type: t,
        supply,
        activity,
        trade_volume: tv,
        purchase_price: buy,
        sell_price: sell,
    }
}

fn market(symbol: &str, imports: &[&str], exports: &[&str], goods: Vec<MarketTradeGood>, ts: Option<i64>) -> MarketEntry {
    MarketEntry {
        symbol: symbol.to_string(),
        imports: imports.iter().map(|s| s.to_string()).collect(),
        exports: exports.iter().map(|s| s.to_string()).collect(),
        snapshot: ts.map(|timestamp| MarketSnapshot { timestamp, trade_goods: goods }),
    }
}

fn no_policy() -> ConstructionPolicy {
    ConstructionPolicy { import_permits: vec![], constant_flow: vec![], import_caps: vec![] }
}

fn open_config() -> LogisticsScriptConfig {
    LogisticsScriptConfig {
        waypoint_allowlist: None,
        allow_shipbuying: true,
        allow_market_refresh: true,
        allow_construction: true,
        min_profit: 1,
    }
}

#[test]
fn market_refresh_value_boundaries() {
    let now = 100_000;
    assert_eq!(market_refresh_value(now, Some(now - 899)), None);
    assert_eq!(market_refresh_value(now, Some(now - 900)), None);
    assert_eq!(market_refresh_value(now, Some(now - 901)), Some(1000));
    assert_eq!(market_refresh_value(now, Some(now - 30 * 60)), Some(1000));
    assert_eq!(market_refresh_value(now, Some(now - 45 * 60)), Some(3000));
    assert_eq!(market_refresh_value(now, Some(now - 60 * 60)), Some(5000));
    assert_eq!(market_refresh_value(now, Some(now - 10 * 3600)), Some(5000));
    assert_eq!(market_refresh_value(now, None), Some(5000));
    assert_eq!(market_refresh_value(now, Some(now + 60)), None);
}

#[test]
fn arbitrage_selection() {
    let markets = vec![
        market("M1", &[], &["X"], vec![good("X", MarketType::Export, MarketSupply::High, Some(MarketActivity::Strong), 60, 100, 90)], Some(0)),
        market("M2", &["X"], &[], vec![good("X", MarketType::Import, MarketSupply::Limited, None, 40, 170, 160)], Some(0)),
    ];
    let task = arbitrage_task(&markets, &"X".to_string(), &no_policy(), 50, 1, &String::new()).unwrap();
    assert_eq!(task.id, "trade_X");
    assert_eq!(task.value, 2400);
    match task.actions {
        TaskActions::TransportCargo { src, dest, src_action, dest_action } => {
            assert_eq!(src, "M1");
            assert_eq!(dest, "M2");
            assert!(matches!(src_action, Action::BuyGoods(ref g, 40) if g == "X"));
            assert!(matches!(dest_action, Action::SellGoods(ref g, 40) if g == "X"));
        }
        _ => panic!("expected a transport"),
    }
    // below the profit floor: no task
    assert!(arbitrage_task(&markets, &"X".to_string(), &no_policy(), 50, 2401, &String::new()).is_none());
}

#[test]
fn strong_export_needs_high_supply() {
    let markets = vec![
        market("M1", &[], &["X"], vec![good("X", MarketType::Export, MarketSupply::Moderate, Some(MarketActivity::Strong), 60, 100, 90)], Some(0)),
        market("M2", &["X"], &[], vec![good("X", MarketType::Import, MarketSupply::Limited, None, 40, 170, 160)], Some(0)),
    ];
    assert!(arbitrage_task(&markets, &"X".to_string(), &no_policy(), 50, 1, &String::new()).is_none());
    let flow = ConstructionPolicy { import_permits: vec![], constant_flow: vec!["X".to_string()], import_caps: vec![] };
    assert_eq!(arbitrage_task(&markets, &"X".to_string(), &flow, 50, 1, &String::new()).unwrap().value, 2400);
}

#[test]
fn sell_side_ties_take_the_last_market() {
    let markets = vec![
        market("B", &[], &["X"], vec![good("X", MarketType::Exchange, MarketSupply::Moderate, None, 10, 10, 9)], Some(0)),
        market("S1", &["X"], &[], vec![good("X", MarketType::Import, MarketSupply::Scarce, None, 10, 30, 20)], Some(0)),
        market("S2", &["X"], &[], vec![good("X", MarketType::Import, MarketSupply::Scarce, None, 10, 30, 20)], Some(0)),
    ];
    let task = arbitrage_task(&markets, &"X".to_string(), &no_policy(), 100, 1, &String::new()).unwrap();
    match task.actions {
        TaskActions::TransportCargo { src, dest, .. } => {
            assert_eq!(src, "B");
            assert_eq!(dest, "S2");
        }
        _ => panic!("expected a transport"),
    }
}

#[test]
fn construction_redirects() {
    let markets = vec![
        market("FAB", &["QUARTZ_SAND", "IRON"], &["FAB_MATS"], vec![good("IRON", MarketType::Import, MarketSupply::Moderate, None, 120, 60, 55)], Some(0)),
        market("SMELT", &["IRON_ORE", "COPPER_ORE"], &["IRON", "COPPER"], vec![good("IRON", MarketType::Export, MarketSupply::Moderate, Some(MarketActivity::Strong), 100, 40, 35)], Some(0)),
        market("OTHER", &["IRON"], &[], vec![good("IRON", MarketType::Import, MarketSupply::Scarce, None, 50, 90, 80)], Some(0)),
    ];
    let site = Some(ConstructionSite {
        materials: vec![
            ConstructionMaterial { trade_symbol: "FAB_MATS".to_string(), required: 1600, fulfilled: 10 },
            ConstructionMaterial { trade_symbol: "ADVANCED_CIRCUITRY".to_string(), required: 400, fulfilled: 400 },
        ],
        is_complete: false,
    });
    let policy = construction_policy(&site, false, &markets, FABRICATOR_IRON_CAP);
    let permit = |g: &str| policy.import_permits.iter().rev().find(|p| p.0 == g).map(|p| p.1.clone());
    assert_eq!(permit("FAB_MATS"), Some(vec![]));
    assert_eq!(permit("IRON"), Some(vec!["FAB".to_string()]));
    assert_eq!(permit("QUARTZ_SAND"), Some(vec!["FAB".to_string()]));
    assert_eq!(permit("IRON_ORE"), Some(vec!["SMELT".to_string()]));
    assert_eq!(permit("COPPER"), None);
    assert!(policy.constant_flow.contains(&"IRON".to_string()));
    assert!(!policy.constant_flow.contains(&"FAB_MATS".to_string()));
    assert_eq!(policy.import_caps, vec![("FAB".to_string(), "IRON".to_string(), 120)]);
    // IRON at the fabricator has reached its cap at Moderate supply: not a sell candidate,
    // and OTHER is not permitted
    assert!(arbitrage_task(&markets, &"IRON".to_string(), &policy, 50, 1, &String::new()).is_none());
    let limited = vec![
        markets[0].clone(),
        market("SMELT", &["IRON_ORE", "COPPER_ORE"], &["IRON", "COPPER"], vec![good("IRON", MarketType::Export, MarketSupply::Moderate, Some(MarketActivity::Strong), 100, 40, 35)], Some(0)),
        market("FAB2", &[], &[], vec![], Some(0)),
    ];
    let mut limited = limited;
    limited[0] = market("FAB", &["QUARTZ_SAND", "IRON"], &["FAB_MATS"], vec![good("IRON", MarketType::Import, MarketSupply::Limited, None, 120, 60, 55)], Some(0));
    let task = arbitrage_task(&limited, &"IRON".to_string(), &policy, 50, 1, &String::new()).unwrap();
    assert_eq!(task.value, (55 - 40) * 50);
    // a complete gate, or no-gate mode, lifts the policy
    assert!(construction_policy(&site, true, &markets, FABRICATOR_IRON_CAP).import_permits.is_empty());
    let done = Some(ConstructionSite { materials: vec![], is_complete: true });
    assert!(construction_policy(&done, false, &markets, FABRICATOR_IRON_CAP).constant_flow.is_empty());
}

#[test]
fn task_ids_and_list() {
    assert_eq!(task_id_prefix(&"X1-S1".to_string(), &"X1-S1".to_string()), "");
    assert_eq!(task_id_prefix(&"X1-S2".to_string(), &"X1-S1".to_string()), "X1-S2/");
    let now = 10_000;
    let markets = vec![
        market("X1-S2-A", &["X"], &[], vec![], Some(now - 3600)),
        market("X1-S2-FUEL", &[], &[], vec![], None),
        market("X1-S2-B", &["X"], &[], vec![], Some(now - 60)),
        market("X1-S2-C", &["X"], &[], vec![], None),
    ];
    let yards = vec![
        ShipyardEntry { symbol: "X1-S2-Y1".to_string(), known: false },
        ShipyardEntry { symbol: "X1-S2-Y2".to_string(), known: true },
        ShipyardEntry { symbol: "X1-S2-C".to_string(), known: false },
    ];
    let probes = vec!["X1-S2-C".to_string()];
    let tasks = generate_task_list(&"X1-S2/".to_string(), &Some("X1-S2-Y1".to_string()), &markets, &yards, &probes, &no_policy(), now, 40, 1);
    let ids: Vec<&str> = tasks.iter().map(|t| t.id.as_str()).collect();
    assert_eq!(ids, vec!["X1-S2/buyships_X1-S2-Y1", "X1-S2/refreshmarket_X1-S2-A", "X1-S2/refreshshipyard_X1-S2-Y1"]);
    assert_eq!(tasks[0].value, 200000);
    assert_eq!(tasks[1].value, 5000);
    assert_eq!(tasks[2].value, 5000);
}

fn visit(id: &str, wp: &str, action: Action, value: i64) -> Task {
    Task { id: id.to_string(), actions: TaskActions::VisitLocation { waypoint: wp.to_string(), action }, value }
}

#[test]
fn task_allowed_checks() {
    let mut config = open_config();
    let refresh = visit("refreshmarket_A", "A", Action::RefreshMarket, 1000);
    let buy = visit("buyships_A", "A", Action::TryBuyShips, 200000);
    assert!(is_task_allowed(&refresh, &config));
    config.allow_market_refresh = false;
    assert!(!is_task_allowed(&refresh, &config));
    config.allow_shipbuying = false;
    assert!(!is_task_allowed(&buy, &config));
    config.allow_shipbuying = true;
    config.waypoint_allowlist = Some(vec!["B".to_string()]);
    assert!(!is_task_allowed(&buy, &config));
    let deliver = Task {
        id: "c".to_string(),
        actions: TaskActions::TransportCargo {
            src: "B".to_string(),
            dest: "B".to_string(),
            src_action: Action::BuyGoods("FAB_MATS".to_string(), 10),
            dest_action: Action::DeliverConstruction("FAB_MATS".to_string(), 10),
        },
        value: 5,
    };
    assert!(is_task_allowed(&deliver, &config));
    config.allow_construction = false;
    assert!(!is_task_allowed(&deliver, &config));
}

#[test]
fn take_tasks_force_assigns_highest_value() {
    let mut held = LogisticTaskManager::new(&"X1-S1".to_string());
    let mut ledger = Ledger::new(1_000_000);
    let all = vec![
        visit("a", "A", Action::RefreshMarket, 1000),
        visit("b", "B", Action::RefreshMarket, 5000),
        visit("c", "C", Action::RefreshShipyard, 5000),
    ];
    let schedule = held.take_tasks(&mut ledger, &"SHIP-1".to_string(), &all, &open_config(), 40, 0);
    assert_eq!(schedule.actions.len(), 1);
    assert_eq!(schedule.actions[0].waypoint, "B");
    assert_eq!(schedule.actions[0].completes_task_id, Some("b".to_string()));
    assert_eq!(held.get_assigned_task_status(&"b".to_string()), Some("SHIP-1".to_string()));
    assert_eq!(ledger.available_credits(), 1_000_000 - 200_000);
    // another ship does not get the held task
    let other = held.take_tasks(&mut ledger, &"SHIP-2".to_string(), &all, &open_config(), 40, 0);
    assert_eq!(other.actions[0].waypoint, "C");
    // the same ship asking again gets its task back
    let again = held.take_tasks(&mut ledger, &"SHIP-1".to_string(), &all, &open_config(), 40, 0);
    assert_eq!(again.actions[0].waypoint, "B");
    assert_eq!(held.get_assigned_task_status(&"c".to_string()), Some("SHIP-2".to_string()));
}

#[test]
fn take_tasks_transport_schedule_and_empty() {
    let mut held = LogisticTaskManager::new(&"X1-S1".to_string());
    let mut ledger = Ledger::new(0);
    let trade = Task {
        id: "trade_X".to_string(),
        actions: TaskActions::TransportCargo {
            src: "M1".to_string(),
            dest: "M2".to_string(),
            src_action: Action::BuyGoods("X".to_string(), 5),
            dest_action: Action::SellGoods("X".to_string(), 5),
        },
        value: 50,
    };
    let s = held.take_tasks(&mut ledger, &"S".to_string(), &vec![trade], &open_config(), 10, 0);
    assert_eq!(s.actions.len(), 2);
    assert_eq!(s.actions[0].waypoint, "M1");
    assert_eq!(s.actions[0].completes_task_id, None);
    assert_eq!(s.actions[1].waypoint, "M2");
    assert_eq!(s.actions[1].completes_task_id, Some("trade_X".to_string()));
    let zero = visit("z", "Z", Action::RefreshMarket, 0);
    let mut held2 = LogisticTaskManager::new(&"X1-S1".to_string());
    let empty = held2.take_tasks(&mut ledger, &"T".to_string(), &vec![zero], &open_config(), 10, 0);
    assert!(empty.actions.is_empty());
}

#[test]
fn in_progress_release_and_complete() {
    let mut held = LogisticTaskManager::new(&"X1-S1".to_string());
    held.assign(visit("a", "A", Action::RefreshMarket, 1), &"S1".to_string(), 5);
    held.assign(visit("b", "B", Action::RefreshMarket, 1), &"S2".to_string(), 5);
    held.assign(visit("c", "C", Action::RefreshMarket, 1), &"S1".to_string(), 5);
    held.release_ship(&"S1".to_string());
    assert!(!held.contains(&"a".to_string()));
    assert!(!held.contains(&"c".to_string()));
    assert_eq!(held.get_assigned_task_status(&"b".to_string()), Some("S2".to_string()));
    held.set_task_completed(&"b".to_string());
    assert!(!held.contains(&"b".to_string()));
    held.set_task_completed(&"b".to_string());
    assert!(held.entries.is_empty());
}

#[test]
fn take_tasks_with_a_plan() {
    let mut held = LogisticTaskManager::new(&"X1-S1".to_string());
    let mut ledger = Ledger::new(1_000_000);
    held.assign(visit("c", "C", Action::RefreshMarket, 5), &"OTHER".to_string(), 0);
    let all = vec![
        visit("a", "A", Action::RefreshMarket, 1000),
        visit("b", "B", Action::RefreshMarket, 5000),
        visit("c", "C", Action::RefreshMarket, 9000),
    ];
    let plan = vec![
        ScheduledAction { timestamp: 10, waypoint: "A".to_string(), action: Action::RefreshMarket, completes_task_id: Some("a".to_string()) },
        ScheduledAction { timestamp: 60, waypoint: "C".to_string(), action: Action::RefreshMarket, completes_task_id: Some("c".to_string()) },
    ];
    let planned = vec!["a".to_string(), "c".to_string(), "zz".to_string()];
    let s = held.take_tasks_with_plan(&mut ledger, &"SHIP".to_string(), &all, &open_config(), 10, 0, plan, &planned);
    assert_eq!(s.actions.len(), 2);
    assert_eq!(held.get_assigned_task_status(&"a".to_string()), Some("SHIP".to_string()));
    // held by another ship: not taken
    assert_eq!(held.get_assigned_task_status(&"c".to_string()), Some("OTHER".to_string()));
    assert!(!held.contains(&"b".to_string()));
    assert!(!held.contains(&"zz".to_string()));
    // an empty plan falls back to the highest-value task
    let s2 = held.take_tasks_with_plan(&mut ledger, &"SHIP".to_string(), &all, &open_config(), 10, 0, vec![], &vec![]);
    assert_eq!(s2.actions[0].waypoint, "B");
    assert!(!held.contains(&"a".to_string()));
}

#[test]
fn buy_ships_task_only_in_its_system() {
    let tm = LogisticTaskManager::new(&"X1-S1".to_string());
    let here = Some(("X1-S1-Y".to_string(), "X1-S1".to_string()));
    let elsewhere = Some(("X1-S2-Y".to_string(), "X1-S2".to_string()));
    let t = tm.generate_task_list(&"X1-S1".to_string(), &here, &vec![], &vec![], &vec![], &no_policy(), 0, 10, 1);
    assert_eq!(t.len(), 1);
    assert_eq!(t[0].id, "buyships_X1-S1-Y");
    let t = tm.generate_task_list(&"X1-S1".to_string(), &elsewhere, &vec![], &vec![], &vec![], &no_policy(), 0, 10, 1);
    assert!(t.is_empty());
}

#[test]
fn trades_follow_sorted_goods() {
    let markets = vec![
        market("M1", &[], &["Z", "A"], vec![
            good("ZINC", MarketType::Exchange, MarketSupply::Moderate, None, 10, 10, 9),
            good("ALU", MarketType::Exchange, MarketSupply::Moderate, None, 10, 10, 9),
            good("ZINC", MarketType::Exchange, MarketSupply::Moderate, None, 10, 10, 9),
        ], Some(0)),
        market("M2", &["Z", "A"], &[], vec![
            good("ALU", MarketType::Import, MarketSupply::Scarce, None, 10, 30, 20),
            good("ZINC", MarketType::Import, MarketSupply::Scarce, None, 10, 30, 20),
            good("IRON", MarketType::Import, MarketSupply::Scarce, None, 10, 30, 20),
        ], Some(0)),
    ];
    assert_eq!(sorted_distinct_goods(&markets), vec!["ALU".to_string(), "IRON".to_string(), "ZINC".to_string()]);
    let tasks = generate_task_list(&String::new(), &None, &markets, &vec![], &vec!["M1".to_string(), "M2".to_string()], &no_policy(), 0, 10, 1);
    let ids: Vec<&str> = tasks.iter().map(|t| t.id.as_str()).collect();
    assert_eq!(ids, vec!["trade_ALU", "trade_ZINC"]);
}
