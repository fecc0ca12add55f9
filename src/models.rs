//! Market snapshots, ship actions, tasks and schedules.
use vstd::prelude::*;
use crate::pathfinding::ShipFlightMode;

verus! {

#[derive(Clone, Copy, Debug, PartialEq, Eq, Structural)]
pub enum MarketType {
    Import,
    Export,
    Exchange,
}

/// How much of a good a market holds, from least to most.
#[derive(Clone, Copy, Debug, PartialEq, Eq, Structural)]
pub enum MarketSupply {
    Scarce,
    Limited,
    Moderate,
    High,
    Abundant,
}

#[derive(Clone, Copy, Debug, PartialEq, Eq, Structural)]
pub enum MarketActivity {
    Restricted,
    Weak,
    Growing,
    Strong,
}

impl MarketSupply {
    /// Position of the supply level, `Scarce` being 0.
    pub open spec fn level(self) -> int {
        match self {
            MarketSupply::Scarce => 0,
            MarketSupply::Limited => 1,
            MarketSupply::Moderate => 2,
            MarketSupply::High => 3,
            MarketSupply::Abundant => 4,
        }
    }

    pub fn rank(&self) -> (r: u8)
        ensures
            r as int == self.level(),
    {
        match self {
            MarketSupply::Scarce => 0,
            MarketSupply::Limited => 1,
            MarketSupply::Moderate => 2,
            MarketSupply::High => 3,
            MarketSupply::Abundant => 4,
        }
    }
}

/// Largest price or trade volume the arithmetic on market data is made for.
pub const MAX_MARKET_VALUE: i64 = 1_000_000_000;

/// One good as a market lists it.
#[derive(Clone, Debug)]
pub struct MarketTradeGood {
    pub symbol: String,
    pub trade_type: MarketType,
    pub supply: MarketSupply,
    pub activity: Option<MarketActivity>,
    pub trade_volume: i64,
    pub purchase_price: i64,
    pub sell_price: i64,
}

impl MarketTradeGood {
    pub open spec fn in_range(self) -> bool {
        &&& 0 <= self.trade_volume <= MAX_MARKET_VALUE
        &&& 0 <= self.purchase_price <= MAX_MARKET_VALUE
        &&& 0 <= self.sell_price <= MAX_MARKET_VALUE
    }
}

/// What was seen at a market, and when (seconds since the epoch).
#[derive(Clone, Debug)]
pub struct MarketSnapshot {
    pub timestamp: i64,
    pub trade_goods: Vec<MarketTradeGood>,
}

/// A market waypoint: what it imports and exports, and its latest snapshot if it
/// was ever sampled.
#[derive(Clone, Debug)]
pub struct MarketEntry {
    pub symbol: String,
    pub imports: Vec<String>,
    pub exports: Vec<String>,
    pub snapshot: Option<MarketSnapshot>,
}

impl MarketEntry {
    pub open spec fn in_range(self) -> bool {
        match self.snapshot {
            Some(snap) => forall|k: int| 0 <= k < snap.trade_goods@.len() ==> (#[trigger] snap.trade_goods@[k]).in_range(),
            None => true,
        }
    }
}

/// A shipyard waypoint, and whether its offerings are known.
#[derive(Clone, Debug)]
pub struct ShipyardEntry {
    pub symbol: String,
    pub known: bool,
}

/// What a ship does at a waypoint.
#[derive(Clone, Debug)]
pub enum Action {
    RefreshMarket,
    RefreshShipyard,
    BuyGoods(String, i64),
    SellGoods(String, i64),
    DeliverConstruction(String, i64),
    DeliverContract(String, i64),
    SupplyConstruction(String, i64),
    Jettison(String, i64),
    TryBuyShips,
    TransferCargo,
    ReceiveCargo,
    Siphon,
    Survey,
    /// Extract with the survey of this key.
    ExtractSurvey(String),
    Scrap,
    SetFlightMode(ShipFlightMode),
    /// Jump to this waypoint by jump gate.
    Jump(String),
    /// Warp in this mode to this waypoint.
    Warp(ShipFlightMode, String),
}

impl Action {
    /// The change the action makes to the ship's cargo: a good and a signed count.
    pub open spec fn spec_net_cargo(self) -> Option<(Seq<char>, int)> {
        match self {
            Action::BuyGoods(g, u) => Some((g@, u as int)),
            Action::SellGoods(g, u) => Some((g@, -u)),
            Action::DeliverConstruction(g, u) => Some((g@, -u)),
            Action::DeliverContract(g, u) => Some((g@, -u)),
            Action::SupplyConstruction(g, u) => Some((g@, -u)),
            Action::Jettison(g, u) => Some((g@, -u)),
            _ => None,
        }
    }

    pub fn net_cargo(&self) -> (r: Option<(String, i64)>)
        requires
            self.units_in_range(),
        ensures
            match r {
                Some((g, u)) => self.spec_net_cargo() == Some((g@, u as int)),
                None => self.spec_net_cargo() is None,
            },
    {
        match self {
            Action::BuyGoods(g, u) => Some((g.clone(), *u)),
            Action::SellGoods(g, u) => Some((g.clone(), -*u)),
            Action::DeliverConstruction(g, u) => Some((g.clone(), -*u)),
            Action::DeliverContract(g, u) => Some((g.clone(), -*u)),
            Action::SupplyConstruction(g, u) => Some((g.clone(), -*u)),
            Action::Jettison(g, u) => Some((g.clone(), -*u)),
            _ => None,
        }
    }

    /// Unit counts are not negative and stay within market bounds.
    pub open spec fn units_in_range(self) -> bool {
        match self {
            Action::BuyGoods(_, u) => 0 <= u <= MAX_MARKET_VALUE,
            Action::SellGoods(_, u) => 0 <= u <= MAX_MARKET_VALUE,
            Action::DeliverConstruction(_, u) => 0 <= u <= MAX_MARKET_VALUE,
            Action::DeliverContract(_, u) => 0 <= u <= MAX_MARKET_VALUE,
            Action::SupplyConstruction(_, u) => 0 <= u <= MAX_MARKET_VALUE,
            Action::Jettison(_, u) => 0 <= u <= MAX_MARKET_VALUE,
            _ => true,
        }
    }
}

/// Where a task takes a ship and what it does there.
#[derive(Clone, Debug)]
pub enum TaskActions {
    VisitLocation { waypoint: String, action: Action },
    TransportCargo { src: String, dest: String, src_action: Action, dest_action: Action },
}

/// A unit of work with a stable id and a value.
#[derive(Clone, Debug)]
pub struct Task {
    pub id: String,
    pub actions: TaskActions,
    pub value: i64,
}

/// One step of a schedule.
#[derive(Clone, Debug)]
pub struct ScheduledAction {
    pub timestamp: i64,
    pub waypoint: String,
    pub action: Action,
    pub completes_task_id: Option<String>,
}

/// The ordered actions planned for one ship.
#[derive(Clone, Debug)]
pub struct ShipSchedule {
    pub ship: String,
    pub actions: Vec<ScheduledAction>,
}

/// What a logistics ship may be given.
#[derive(Clone, Debug)]
pub struct LogisticsScriptConfig {
    pub waypoint_allowlist: Option<Vec<String>>,
    pub allow_shipbuying: bool,
    pub allow_market_refresh: bool,
    pub allow_construction: bool,
    pub min_profit: i64,
}

/// An action as plain values.
pub enum ActionView {
    RefreshMarket,
    RefreshShipyard,
    BuyGoods(Seq<char>, int),
    SellGoods(Seq<char>, int),
    DeliverConstruction(Seq<char>, int),
    DeliverContract(Seq<char>, int),
    SupplyConstruction(Seq<char>, int),
    Jettison(Seq<char>, int),
    TryBuyShips,
    TransferCargo,
    ReceiveCargo,
    Siphon,
    Survey,
    ExtractSurvey(Seq<char>),
    Scrap,
    SetFlightMode(ShipFlightMode),
    Jump(Seq<char>),
    Warp(ShipFlightMode, Seq<char>),
}

impl View for Action {
    type V = ActionView;

    open spec fn view(&self) -> ActionView {
        match self {
            Action::RefreshMarket => ActionView::RefreshMarket,
            Action::RefreshShipyard => ActionView::RefreshShipyard,
            Action::BuyGoods(g, u) => ActionView::BuyGoods(g@, *u as int),
            Action::SellGoods(g, u) => ActionView::SellGoods(g@, *u as int),
            Action::DeliverConstruction(g, u) => ActionView::DeliverConstruction(g@, *u as int),
            Action::DeliverContract(g, u) => ActionView::DeliverContract(g@, *u as int),
            Action::SupplyConstruction(g, u) => ActionView::SupplyConstruction(g@, *u as int),
            Action::Jettison(g, u) => ActionView::Jettison(g@, *u as int),
            Action::TryBuyShips => ActionView::TryBuyShips,
            Action::TransferCargo => ActionView::TransferCargo,
            Action::ReceiveCargo => ActionView::ReceiveCargo,
            Action::Siphon => ActionView::Siphon,
            Action::Survey => ActionView::Survey,
            Action::ExtractSurvey(k) => ActionView::ExtractSurvey(k@),
            Action::Scrap => ActionView::Scrap,
            Action::SetFlightMode(m) => ActionView::SetFlightMode(*m),
            Action::Jump(w) => ActionView::Jump(w@),
            Action::Warp(m, w) => ActionView::Warp(*m, w@),
        }
    }
}

/// Task actions as plain values.
pub enum TaskActionsView {
    VisitLocation { waypoint: Seq<char>, action: ActionView },
    TransportCargo { src: Seq<char>, dest: Seq<char>, src_action: ActionView, dest_action: ActionView },
}

/// A task as plain values.
pub struct TaskView {
    pub id: Seq<char>,
    pub actions: TaskActionsView,
    pub value: int,
}

impl View for TaskActions {
    type V = TaskActionsView;

    open spec fn view(&self) -> TaskActionsView {
        match self {
            TaskActions::VisitLocation { waypoint, action } => TaskActionsView::VisitLocation {
                waypoint: waypoint@,
                action: action@,
            },
            TaskActions::TransportCargo { src, dest, src_action, dest_action } => TaskActionsView::TransportCargo {
                src: src@,
                dest: dest@,
                src_action: src_action@,
                dest_action: dest_action@,
            },
        }
    }
}

impl View for Task {
    type V = TaskView;

    open spec fn view(&self) -> TaskView {
        TaskView { id: self.id@, actions: self.actions@, value: self.value as int }
    }
}

/// The plain values of a list of tasks.
pub open spec fn tasks_view(v: Seq<Task>) -> Seq<TaskView> {
    v.map_values(|t: Task| t@)
}

/// `s` is one of the strings of `v`.
pub open spec fn has_str(v: Seq<String>, s: Seq<char>) -> bool {
    exists|i: int| 0 <= i < v.len() && (#[trigger] v[i])@ == s
}

/// Whether `s` is one of the strings of `v`.
pub fn contains_str(v: &Vec<String>, s: &String) -> (r: bool)
    ensures
        r == has_str(v@, s@),
{
    let mut i: usize = 0;
    while i < v.len()
        invariant
            i <= v@.len(),
            forall|k: int| 0 <= k < i ==> (#[trigger] v@[k])@ != s@,
        decreases v@.len() - i,
    {
        if v[i] == *s {
            return true;
        }
        i += 1;
    }
    false
}

} // verus!
