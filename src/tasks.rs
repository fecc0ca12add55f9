//! The logistic task manager: which tasks exist for a system, their values and
//! ids, which of them a ship may take, and which ship holds which task.
use vstd::prelude::*;
use vstd::math::min;
use vstd::string::{StrSliceExecFns, StringExecFns};
use crate::ledger::{CREDITS_PER_CARGO_UNIT, Ledger, MAX_KEYS};
use crate::models::{
    Action, ActionView, LogisticsScriptConfig, MAX_MARKET_VALUE, MarketActivity, MarketEntry,
    MarketTradeGood, MarketType, ScheduledAction, ShipSchedule, ShipyardEntry, Task, TaskActions, TaskActionsView, TaskView, contains_str,
    has_str, tasks_view,
};

verus! {

/// Whether a ship with `config` may take task `t`: every waypoint it visits is on
/// the allowlist, if there is one, and its kind of work is allowed.
pub open spec fn task_allowed(t: TaskView, config: LogisticsScriptConfig) -> bool {
    let on_list = match config.waypoint_allowlist {
        Some(list) => match t.actions {
            TaskActionsView::VisitLocation { waypoint, .. } => has_str(list@, waypoint),
            TaskActionsView::TransportCargo { src, dest, .. } => has_str(list@, src) && has_str(list@, dest),
        },
        None => true,
    };
    let kind_ok = match t.actions {
        TaskActionsView::VisitLocation { action, .. } => match action {
            ActionView::RefreshMarket => config.allow_market_refresh,
            ActionView::RefreshShipyard => config.allow_market_refresh,
            ActionView::TryBuyShips => config.allow_shipbuying,
            _ => true,
        },
        TaskActionsView::TransportCargo { dest_action, .. } => match dest_action {
            ActionView::DeliverConstruction(_, _) => config.allow_construction,
            _ => true,
        },
    };
    on_list && kind_ok
}

pub fn is_task_allowed(task: &Task, config: &LogisticsScriptConfig) -> (r: bool)
    ensures
        r == task_allowed(task@, *config),
{
    if let Some(waypoint_allowlist) = &config.waypoint_allowlist {
        match &task.actions {
            TaskActions::VisitLocation { waypoint, .. } => {
                if !contains_str(waypoint_allowlist, waypoint) {
                    return false;
                }
            },
            TaskActions::TransportCargo { src, dest, .. } => {
                if !contains_str(waypoint_allowlist, src) || !contains_str(waypoint_allowlist, dest) {
                    return false;
                }
            },
        }
    }
    match &task.actions {
        TaskActions::VisitLocation { action, .. } => match action {
            Action::RefreshMarket => config.allow_market_refresh,
            Action::RefreshShipyard => config.allow_market_refresh,
            Action::TryBuyShips => config.allow_shipbuying,
            _ => true,
        },
        TaskActions::TransportCargo { dest_action, .. } => match dest_action {
            Action::DeliverConstruction(_, _) => config.allow_construction,
            _ => true,
        },
    }
}

/// The value of refreshing a market whose snapshot is `age` seconds old (`None`:
/// never sampled). Up to 15 minutes there is no task; 1000 up to 30 minutes; from
/// there a linear ramp to 5000 at 60 minutes; 5000 beyond, and when never sampled.
pub open spec fn refresh_value(age: Option<int>) -> Option<int> {
    match age {
        None => Some(5000),
        Some(a) => if a <= 900 {
            None
        } else if a < 1800 {
            Some(1000)
        } else if a < 3600 {
            Some(1000 + (a - 1800) * 20 / 9)
        } else {
            Some(5000)
        },
    }
}

/// The value of refreshing a market last sampled at `sampled_at` (seconds since
/// the epoch), at time `now`.
pub fn market_refresh_value(now: i64, sampled_at: Option<i64>) -> (r: Option<i64>)
    ensures
        r == (match refresh_value(
            match sampled_at {
                Some(ts) => Some(now - ts),
                None => None,
            },
        ) {
            Some(v) => Some(v as i64),
            None => None,
        }),
{
    match sampled_at {
        None => Some(5000),
        Some(ts) => {
            let age: i128 = now as i128 - ts as i128;
            if age <= 900 {
                None
            } else if age < 1800 {
                Some(1000)
            } else if age < 3600 {
                Some((1000 + (age - 1800) * 20 / 9) as i64)
            } else {
                Some(5000)
            }
        },
    }
}

/// Task ids outside the starting system carry the system's symbol and a slash.
pub open spec fn id_prefix(system: Seq<char>, start_system: Seq<char>) -> Seq<char> {
    if system == start_system {
        Seq::empty()
    } else {
        system + "/"@
    }
}

pub fn task_id_prefix(system: &String, start_system: &String) -> (r: String)
    ensures
        r@ == id_prefix(system@, start_system@),
{
    if *system == *start_system {
        String::new()
    } else {
        system.clone().concat("/")
    }
}

/// `prefix`, then `kind`, then `subject`.
pub fn compose_id(prefix: &String, kind: &str, subject: &String) -> (r: String)
    ensures
        r@ == prefix@ + kind@ + subject@,
{
    prefix.clone().concat(kind).concat(subject.as_str())
}

/// Where construction is under way, the rules that steer trade towards it.
#[derive(Clone, Debug)]
pub struct ConstructionPolicy {
    /// Goods that may only be sold at the listed markets.
    pub import_permits: Vec<(String, Vec<String>)>,
    /// Goods bought for their flow rather than their price.
    pub constant_flow: Vec<String>,
    /// `(market, good, trade volume)`: at or above that volume the market takes
    /// the good only while its supply is at most `Limited`.
    pub import_caps: Vec<(String, String, i64)>,
}

/// The markets allowed to buy `g`, if restricted (a later entry overrides an earlier one).
pub open spec fn permit_for(permits: Seq<(String, Vec<String>)>, g: Seq<char>) -> Option<Seq<String>>
    decreases permits.len(),
{
    if permits.len() == 0 {
        None
    } else if permits.last().0@ == g {
        Some(permits.last().1@)
    } else {
        permit_for(permits.drop_last(), g)
    }
}

/// The import cap for `g` at `market`, if any (a later entry overrides an earlier one).
pub open spec fn cap_for(caps: Seq<(String, String, i64)>, market: Seq<char>, g: Seq<char>) -> Option<int>
    decreases caps.len(),
{
    if caps.len() == 0 {
        None
    } else if caps.last().0@ == market && caps.last().1@ == g {
        Some(caps.last().2 as int)
    } else {
        cap_for(caps.drop_last(), market, g)
    }
}

/// The first listing of `g` among `goods`.
pub open spec fn first_good(goods: Seq<MarketTradeGood>, g: Seq<char>) -> Option<MarketTradeGood>
    decreases goods.len(),
{
    if goods.len() == 0 {
        None
    } else {
        match first_good(goods.drop_last(), g) {
            Some(t) => Some(t),
            None => if goods.last().symbol@ == g {
                Some(goods.last())
            } else {
                None
            },
        }
    }
}

/// How market `m` trades `g`, if its snapshot lists it.
pub open spec fn trade_at(m: MarketEntry, g: Seq<char>) -> Option<MarketTradeGood> {
    match m.snapshot {
        Some(snap) => first_good(snap.trade_goods@, g),
        None => None,
    }
}

/// A market may be bought from: an exchange, or an export with enough supply
/// (at least `High` where activity is `Strong` and the good is not bought for
/// flow, else at least `Moderate`).
pub open spec fn buy_eligible(t: MarketTradeGood, constant_flow: bool) -> bool {
    match t.trade_type {
        MarketType::Import => false,
        MarketType::Export => if !constant_flow && t.activity == Some(MarketActivity::Strong) {
            t.supply.level() >= 3
        } else {
            t.supply.level() >= 2
        },
        MarketType::Exchange => true,
    }
}

/// A market may be sold to: an exchange, or an import with supply at most
/// `Moderate`; within the import cap if one is set and reached; and among the
/// permitted markets if the good is restricted.
pub open spec fn sell_eligible(market: Seq<char>, t: MarketTradeGood, g: Seq<char>, policy: ConstructionPolicy) -> bool {
    let under_cap = match cap_for(policy.import_caps@, market, g) {
        Some(c) => t.trade_volume >= c ==> t.supply.level() <= 1,
        None => true,
    };
    let kind_ok = match t.trade_type {
        MarketType::Import => t.supply.level() <= 2,
        MarketType::Export => false,
        MarketType::Exchange => true,
    };
    let permitted = match permit_for(policy.import_permits@, g) {
        Some(list) => has_str(list, market),
        None => true,
    };
    under_cap && kind_ok && permitted
}

/// The cheapest market to buy `g` at (the first one among equals), with its listing.
pub open spec fn best_buy(markets: Seq<MarketEntry>, g: Seq<char>, constant_flow: bool) -> Option<(int, MarketTradeGood)>
    decreases markets.len(),
{
    if markets.len() == 0 {
        None
    } else {
        let prev = best_buy(markets.drop_last(), g, constant_flow);
        match trade_at(markets.last(), g) {
            Some(t) => if !buy_eligible(t, constant_flow) {
                prev
            } else {
                match prev {
                    Some((i, b)) => if t.purchase_price < b.purchase_price {
                        Some((markets.len() - 1, t))
                    } else {
                        prev
                    },
                    None => Some((markets.len() - 1, t)),
                }
            },
            None => prev,
        }
    }
}

/// The best-paying market to sell `g` at (the last one among equals), with its listing.
pub open spec fn best_sell(markets: Seq<MarketEntry>, g: Seq<char>, policy: ConstructionPolicy) -> Option<(int, MarketTradeGood)>
    decreases markets.len(),
{
    if markets.len() == 0 {
        None
    } else {
        let prev = best_sell(markets.drop_last(), g, policy);
        match trade_at(markets.last(), g) {
            Some(t) => if !sell_eligible(markets.last().symbol@, t, g, policy) {
                prev
            } else {
                match prev {
                    Some((i, b)) => if t.sell_price >= b.sell_price {
                        Some((markets.len() - 1, t))
                    } else {
                        prev
                    },
                    None => Some((markets.len() - 1, t)),
                }
            },
            None => prev,
        }
    }
}

/// The trade task for `g`: buy at the best buy market, sell at the best sell
/// market, as many units as both trade volumes and the cap allow; emitted when the
/// profit reaches `min_profit`.
pub open spec fn trade_task(markets: Seq<MarketEntry>, g: Seq<char>, policy: ConstructionPolicy, capacity_cap: int, min_profit: int, prefix: Seq<char>) -> Option<TaskView> {
    let cf = has_str(policy.constant_flow@, g);
    match (best_buy(markets, g, cf), best_sell(markets, g, policy)) {
        (Some((bi, b)), Some((si, sl))) => {
            let units = min(min(b.trade_volume as int, sl.trade_volume as int), capacity_cap);
            let profit = (sl.sell_price - b.purchase_price) * units;
            if profit >= min_profit {
                Some(TaskView {
                    id: prefix + "trade_"@ + g,
                    actions: TaskActionsView::TransportCargo {
                        src: markets[bi].symbol@,
                        dest: markets[si].symbol@,
                        src_action: ActionView::BuyGoods(g, units),
                        dest_action: ActionView::SellGoods(g, units),
                    },
                    value: profit,
                })
            } else {
                None
            }
        },
        _ => None,
    }
}

pub open spec fn markets_in_range(markets: Seq<MarketEntry>) -> bool {
    forall|i: int| 0 <= i < markets.len() ==> (#[trigger] markets[i]).in_range()
}

fn lookup_permit<'a>(permits: &'a Vec<(String, Vec<String>)>, g: &String) -> (r: Option<&'a Vec<String>>)
    ensures
        match r {
            Some(list) => permit_for(permits@, g@) == Some(list@),
            None => permit_for(permits@, g@) is None,
        },
{
    let mut found: Option<&'a Vec<String>> = None;
    let mut i: usize = 0;
    while i < permits.len()
        invariant
            i <= permits@.len(),
            match found {
                Some(list) => permit_for(permits@.take(i as int), g@) == Some(list@),
                None => permit_for(permits@.take(i as int), g@) is None,
            },
        decreases permits@.len() - i,
    {
        proof {
            assert(permits@.take(i + 1).drop_last() =~= permits@.take(i as int));
        }
        if permits[i].0 == *g {
            found = Some(&permits[i].1);
        }
        i += 1;
    }
    proof {
        assert(permits@.take(permits@.len() as int) =~= permits@);
    }
    found
}

fn lookup_cap(caps: &Vec<(String, String, i64)>, market: &String, g: &String) -> (r: Option<i64>)
    ensures
        match r {
            Some(c) => cap_for(caps@, market@, g@) == Some(c as int),
            None => cap_for(caps@, market@, g@) is None,
        },
{
    let mut found: Option<i64> = None;
    let mut i: usize = 0;
    while i < caps.len()
        invariant
            i <= caps@.len(),
            match found {
                Some(c) => cap_for(caps@.take(i as int), market@, g@) == Some(c as int),
                None => cap_for(caps@.take(i as int), market@, g@) is None,
            },
        decreases caps@.len() - i,
    {
        proof {
            assert(caps@.take(i + 1).drop_last() =~= caps@.take(i as int));
        }
        if caps[i].0 == *market && caps[i].1 == *g {
            found = Some(caps[i].2);
        }
        i += 1;
    }
    proof {
        assert(caps@.take(caps@.len() as int) =~= caps@);
    }
    found
}

proof fn lemma_first_good_extends(goods: Seq<MarketTradeGood>, g: Seq<char>, j: int, k: int)
    requires
        0 <= j <= k <= goods.len(),
        first_good(goods.take(j), g) is Some,
    ensures
        first_good(goods.take(k), g) == first_good(goods.take(j), g),
    decreases k - j,
{
    if k > j {
        lemma_first_good_extends(goods, g, j, k - 1);
        assert(goods.take(k).drop_last() =~= goods.take(k - 1));
    }
}

/// The first listing of `g` in the snapshot of `m`.
fn find_trade<'a>(m: &'a MarketEntry, g: &String) -> (r: Option<&'a MarketTradeGood>)
    ensures
        match r {
            Some(t) => trade_at(*m, g@) == Some(*t),
            None => trade_at(*m, g@) is None,
        },
{
    match m.snapshot.as_ref() {
        None => None,
        Some(snap) => {
            let goods = &snap.trade_goods;
            let mut i: usize = 0;
            while i < goods.len()
                invariant
                    m.snapshot == Some(*snap),
                    goods@ == snap.trade_goods@,
                    i <= goods@.len(),
                    first_good(goods@.take(i as int), g@) is None,
                decreases goods@.len() - i,
            {
                proof {
                    assert(goods@.take(i + 1).drop_last() =~= goods@.take(i as int));
                }
                if goods[i].symbol == *g {
                    proof {
                        assert(goods@.take(i + 1).last() == goods@[i as int]);
                        assert(first_good(goods@.take(i + 1), g@) == Some(goods@[i as int]));
                        lemma_first_good_extends(goods@, g@, i + 1, goods@.len() as int);
                        assert(goods@.take(goods@.len() as int) =~= goods@);

                    }
                    return Some(&goods[i]);
                }
                i += 1;
            }
            proof {
                assert(goods@.take(goods@.len() as int) =~= goods@);
            }
            None
        },
    }
}

fn is_buy_eligible(t: &MarketTradeGood, constant_flow: bool) -> (r: bool)
    ensures
        r == buy_eligible(*t, constant_flow),
{
    match t.trade_type {
        MarketType::Import => false,
        MarketType::Export => {
            if !constant_flow && t.activity == Some(MarketActivity::Strong) {
                t.supply.rank() >= 3
            } else {
                t.supply.rank() >= 2
            }
        },
        MarketType::Exchange => true,
    }
}

fn is_sell_eligible(market: &String, t: &MarketTradeGood, g: &String, policy: &ConstructionPolicy) -> (r: bool)
    ensures
        r == sell_eligible(market@, *t, g@, *policy),
{
    let under_cap = match lookup_cap(&policy.import_caps, market, g) {
        Some(c) => !(t.trade_volume >= c) || t.supply.rank() <= 1,
        None => true,
    };
    let kind_ok = match t.trade_type {
        MarketType::Import => t.supply.rank() <= 2,
        MarketType::Export => false,
        MarketType::Exchange => true,
    };
    let permitted = match lookup_permit(&policy.import_permits, g) {
        Some(list) => contains_str(list, market),
        None => true,
    };
    under_cap && kind_ok && permitted
}

/// The cheapest eligible market to buy `g` at: its index and listing.
pub fn select_buy<'a>(markets: &'a Vec<MarketEntry>, g: &String, constant_flow: bool) -> (r: Option<(usize, &'a MarketTradeGood)>)
    ensures
        match r {
            Some((i, t)) => best_buy(markets@, g@, constant_flow) == Some((i as int, *t)),
            None => best_buy(markets@, g@, constant_flow) is None,
        },
{
    let mut best: Option<(usize, &MarketTradeGood)> = None;
    let mut i: usize = 0;
    while i < markets.len()
        invariant
            i <= markets@.len(),
            match best {
                Some((j, t)) => best_buy(markets@.take(i as int), g@, constant_flow) == Some((j as int, *t)),
                None => best_buy(markets@.take(i as int), g@, constant_flow) is None,
            },
        decreases markets@.len() - i,
    {
        proof {
            assert(markets@.take(i + 1).drop_last() =~= markets@.take(i as int));
            assert(markets@.take(i + 1).last() == markets@[i as int]);
        }
        match find_trade(&markets[i], g) {
            Some(t) => {
                if is_buy_eligible(t, constant_flow) {
                    match best {
                        Some((_j, b)) => {
                            if t.purchase_price < b.purchase_price {
                                best = Some((i, t));
                            }
                        },
                        None => {
                            best = Some((i, t));
                        },
                    }
                }
            },
            None => {},
        }
        i += 1;
    }
    proof {
        assert(markets@.take(markets@.len() as int) =~= markets@);
    }
    best
}

/// The best-paying eligible market to sell `g` at: its index and listing.
pub fn select_sell<'a>(markets: &'a Vec<MarketEntry>, g: &String, policy: &ConstructionPolicy) -> (r: Option<(usize, &'a MarketTradeGood)>)
    ensures
        match r {
            Some((i, t)) => best_sell(markets@, g@, *policy) == Some((i as int, *t)),
            None => best_sell(markets@, g@, *policy) is None,
        },
{
    let mut best: Option<(usize, &MarketTradeGood)> = None;
    let mut i: usize = 0;
    while i < markets.len()
        invariant
            i <= markets@.len(),
            match best {
                Some((j, t)) => best_sell(markets@.take(i as int), g@, *policy) == Some((j as int, *t)),
                None => best_sell(markets@.take(i as int), g@, *policy) is None,
            },
        decreases markets@.len() - i,
    {
        proof {
            assert(markets@.take(i + 1).drop_last() =~= markets@.take(i as int));
            assert(markets@.take(i + 1).last() == markets@[i as int]);
        }
        match find_trade(&markets[i], g) {
            Some(t) => {
                if is_sell_eligible(&markets[i].symbol, t, g, policy) {
                    match best {
                        Some((_j, b)) => {
                            if t.sell_price >= b.sell_price {
                                best = Some((i, t));
                            }
                        },
                        None => {
                            best = Some((i, t));
                        },
                    }
                }
            },
            None => {},
        }
        i += 1;
    }
    proof {
        assert(markets@.take(markets@.len() as int) =~= markets@);
    }
    best
}

proof fn lemma_first_good_member(goods: Seq<MarketTradeGood>, g: Seq<char>)
    requires
        first_good(goods, g) is Some,
    ensures
        exists|k: int| 0 <= k < goods.len() && goods[k] == first_good(goods, g)->0,
    decreases goods.len(),
{
    if first_good(goods.drop_last(), g) is Some {
        lemma_first_good_member(goods.drop_last(), g);
        let k = choose|k: int| 0 <= k < goods.drop_last().len() && goods.drop_last()[k] == first_good(goods.drop_last(), g)->0;
        assert(goods[k] == goods.drop_last()[k]);
    } else {
        assert(goods[goods.len() - 1] == goods.last());
    }
}

proof fn lemma_trade_in_range(m: MarketEntry, g: Seq<char>)
    requires
        m.in_range(),
        trade_at(m, g) is Some,
    ensures
        trade_at(m, g)->0.in_range(),
{
    let snap = m.snapshot->0;
    lemma_first_good_member(snap.trade_goods@, g);
    let k = choose|k: int| 0 <= k < snap.trade_goods@.len() && snap.trade_goods@[k] == first_good(snap.trade_goods@, g)->0;
    assert(snap.trade_goods@[k].in_range());
}

proof fn lemma_best_buy_member(markets: Seq<MarketEntry>, g: Seq<char>, cf: bool)
    requires
        best_buy(markets, g, cf) is Some,
    ensures
        ({
            let (i, t) = best_buy(markets, g, cf)->0;
            0 <= i < markets.len() && trade_at(markets[i], g) == Some(t)
        }),
    decreases markets.len(),
{
    let prev = best_buy(markets.drop_last(), g, cf);
    if prev is Some {
        lemma_best_buy_member(markets.drop_last(), g, cf);
        let (pi, pt) = prev->0;
        assert(markets[pi] == markets.drop_last()[pi]);
    }
}

proof fn lemma_best_sell_member(markets: Seq<MarketEntry>, g: Seq<char>, policy: ConstructionPolicy)
    requires
        best_sell(markets, g, policy) is Some,
    ensures
        ({
            let (i, t) = best_sell(markets, g, policy)->0;
            0 <= i < markets.len() && trade_at(markets[i], g) == Some(t)
        }),
    decreases markets.len(),
{
    let prev = best_sell(markets.drop_last(), g, policy);
    if prev is Some {
        lemma_best_sell_member(markets.drop_last(), g, policy);
        let (pi, pt) = prev->0;
        assert(markets[pi] == markets.drop_last()[pi]);
    }
}

/// The trade task for good `g`, if buying it at the cheapest eligible market and
/// selling it at the best-paying eligible one earns at least `min_profit`.
pub fn arbitrage_task(markets: &Vec<MarketEntry>, g: &String, policy: &ConstructionPolicy, capacity_cap: i64, min_profit: i64, prefix: &String) -> (r: Option<Task>)
    requires
        markets_in_range(markets@),
        0 <= capacity_cap <= MAX_MARKET_VALUE,
    ensures
        match r {
            Some(t) => trade_task(markets@, g@, *policy, capacity_cap as int, min_profit as int, prefix@) == Some(t@),
            None => trade_task(markets@, g@, *policy, capacity_cap as int, min_profit as int, prefix@) is None,
        },
{
    let constant_flow = contains_str(&policy.constant_flow, g);
    let buy = select_buy(markets, g, constant_flow);
    let sell = select_sell(markets, g, policy);
    match (buy, sell) {
        (Some((bi, b)), Some((si, sl))) => {
            proof {
                lemma_best_buy_member(markets@, g@, constant_flow);
                lemma_best_sell_member(markets@, g@, *policy);
                lemma_trade_in_range(markets@[bi as int], g@);
                lemma_trade_in_range(markets@[si as int], g@);
            }
            let mut units = if b.trade_volume < sl.trade_volume { b.trade_volume } else { sl.trade_volume };
            if capacity_cap < units {
                units = capacity_cap;
            }
            let margin = sl.sell_price - b.purchase_price;
            proof {
                assert(-MAX_MARKET_VALUE * MAX_MARKET_VALUE <= margin * units <= MAX_MARKET_VALUE * MAX_MARKET_VALUE) by (nonlinear_arith)
                    requires -MAX_MARKET_VALUE <= margin <= MAX_MARKET_VALUE, 0 <= units <= MAX_MARKET_VALUE;
            }
            let profit = margin * units;
            if profit >= min_profit {
                Some(Task {
                    id: compose_id(prefix, "trade_", g),
                    actions: TaskActions::TransportCargo {
                        src: markets[bi].symbol.clone(),
                        dest: markets[si].symbol.clone(),
                        src_action: Action::BuyGoods(g.clone(), units),
                        dest_action: Action::SellGoods(g.clone(), units),
                    },
                    value: profit,
                })
            } else {
                None
            }
        },
        _ => None,
    }
}

/// The good symbols a market's snapshot lists, in its order.
pub open spec fn snapshot_goods(m: MarketEntry) -> Seq<Seq<char>> {
    match m.snapshot {
        Some(snap) => snap.trade_goods@.map_values(|t: MarketTradeGood| t.symbol@),
        None => Seq::empty(),
    }
}

/// Every good listing of every market, in order.
pub open spec fn all_goods(markets: Seq<MarketEntry>) -> Seq<Seq<char>>
    decreases markets.len(),
{
    if markets.len() == 0 {
        Seq::empty()
    } else {
        all_goods(markets.drop_last()) + snapshot_goods(markets.last())
    }
}

/// `s` with repeats removed, keeping first appearances.
pub open spec fn dedup(s: Seq<Seq<char>>) -> Seq<Seq<char>>
    decreases s.len(),
{
    if s.len() == 0 {
        Seq::empty()
    } else if dedup(s.drop_last()).contains(s.last()) {
        dedup(s.drop_last())
    } else {
        dedup(s.drop_last()).push(s.last())
    }
}

/// The goods traded in the system, each once, in order of first appearance.
pub open spec fn goods_traded(markets: Seq<MarketEntry>) -> Seq<Seq<char>> {
    dedup(all_goods(markets))
}

pub open spec fn strs_view(v: Seq<String>) -> Seq<Seq<char>> {
    v.map_values(|s: String| s@)
}

proof fn lemma_has_str_contains(v: Seq<String>, s: Seq<char>)
    ensures
        has_str(v, s) == strs_view(v).contains(s),
{
    if has_str(v, s) {
        let i = choose|i: int| 0 <= i < v.len() && (#[trigger] v[i])@ == s;
        assert(strs_view(v)[i] == s);
    }
    if strs_view(v).contains(s) {
        let i = choose|i: int| 0 <= i < strs_view(v).len() && strs_view(v)[i] == s;
        assert(v[i]@ == s);
    }
}

/// The goods traded in the system, each once, in order of first appearance.
pub fn distinct_goods(markets: &Vec<MarketEntry>) -> (r: Vec<String>)
    ensures
        strs_view(r@) == goods_traded(markets@),
{
    let mut r: Vec<String> = Vec::new();
    let mut i: usize = 0;
    while i < markets.len()
        invariant
            i <= markets@.len(),
            strs_view(r@) == dedup(all_goods(markets@.take(i as int))),
        decreases markets@.len() - i,
    {
        proof {
            assert(markets@.take(i + 1).drop_last() =~= markets@.take(i as int));
            assert(markets@.take(i + 1).last() == markets@[i as int]);
        }
        let ghost before = all_goods(markets@.take(i as int));
        match markets[i].snapshot.as_ref() {
            Some(snap) => {
                let goods = &snap.trade_goods;
                let mut j: usize = 0;
                while j < goods.len()
                    invariant
                        markets@[i as int].snapshot == Some(*snap),
                        goods@ == snap.trade_goods@,
                        j <= goods@.len(),
                        strs_view(r@) == dedup(before + snapshot_goods(markets@[i as int]).take(j as int)),
                    decreases goods@.len() - j,
                {
                    let ghost cur = before + snapshot_goods(markets@[i as int]).take(j as int);
                    let ghost next = before + snapshot_goods(markets@[i as int]).take(j + 1);
                    proof {
                        assert(next.drop_last() =~= cur);
                        assert(next.last() == goods@[j as int].symbol@);
                        lemma_has_str_contains(r@, goods@[j as int].symbol@);
                    }
                    if !contains_str(&r, &goods[j].symbol) {
                        r.push(goods[j].symbol.clone());
                        proof {
                            assert(strs_view(r@) =~= dedup(cur).push(goods@[j as int].symbol@));
                        }
                    }
                    j += 1;
                }
                proof {
                    assert(snapshot_goods(markets@[i as int]).take(goods@.len() as int) =~= snapshot_goods(markets@[i as int]));
                }
            },
            None => {
                proof {
                    assert(before + snapshot_goods(markets@[i as int]) =~= before);
                }
            },
        }
        i += 1;
    }
    proof {
        assert(markets@.take(markets@.len() as int) =~= markets@);
    }
    r
}

/// The task that sends a ship to buy ships at `wp`.
pub open spec fn buy_ships_task(prefix: Seq<char>, wp: Seq<char>) -> TaskView {
    TaskView {
        id: prefix + "buyships_"@ + wp,
        actions: TaskActionsView::VisitLocation { waypoint: wp, action: ActionView::TryBuyShips },
        value: 200000,
    }
}

/// The refresh task of market `m`, unless a probe watches it, it trades nothing
/// but fuel (no imports, no exports), or its snapshot is fresh.
pub open spec fn market_refresh_task(m: MarketEntry, probes: Seq<String>, now: int, prefix: Seq<char>) -> Option<TaskView> {
    let age = match m.snapshot {
        Some(snap) => Some(now - snap.timestamp),
        None => None,
    };
    if has_str(probes, m.symbol@) || (m.exports@.len() == 0 && m.imports@.len() == 0) {
        None
    } else {
        match refresh_value(age) {
            Some(v) => Some(TaskView {
                id: prefix + "refreshmarket_"@ + m.symbol@,
                actions: TaskActionsView::VisitLocation { waypoint: m.symbol@, action: ActionView::RefreshMarket },
                value: v,
            }),
            None => None,
        }
    }
}

/// The refresh task of a shipyard whose offerings are unknown and that no probe watches.
pub open spec fn shipyard_refresh_task(y: ShipyardEntry, probes: Seq<String>, prefix: Seq<char>) -> Option<TaskView> {
    if !y.known && !has_str(probes, y.symbol@) {
        Some(TaskView {
            id: prefix + "refreshshipyard_"@ + y.symbol@,
            actions: TaskActionsView::VisitLocation { waypoint: y.symbol@, action: ActionView::RefreshShipyard },
            value: 5000,
        })
    } else {
        None
    }
}

pub open spec fn opt_seq(o: Option<TaskView>) -> Seq<TaskView> {
    match o {
        Some(t) => seq![t],
        None => Seq::empty(),
    }
}

pub open spec fn market_refresh_tasks(markets: Seq<MarketEntry>, probes: Seq<String>, now: int, prefix: Seq<char>) -> Seq<TaskView>
    decreases markets.len(),
{
    if markets.len() == 0 {
        Seq::empty()
    } else {
        market_refresh_tasks(markets.drop_last(), probes, now, prefix) + opt_seq(market_refresh_task(markets.last(), probes, now, prefix))
    }
}

pub open spec fn shipyard_refresh_tasks(yards: Seq<ShipyardEntry>, probes: Seq<String>, prefix: Seq<char>) -> Seq<TaskView>
    decreases yards.len(),
{
    if yards.len() == 0 {
        Seq::empty()
    } else {
        shipyard_refresh_tasks(yards.drop_last(), probes, prefix) + opt_seq(shipyard_refresh_task(yards.last(), probes, prefix))
    }
}

pub open spec fn trade_tasks(markets: Seq<MarketEntry>, goods: Seq<Seq<char>>, policy: ConstructionPolicy, capacity_cap: int, min_profit: int, prefix: Seq<char>) -> Seq<TaskView>
    decreases goods.len(),
{
    if goods.len() == 0 {
        Seq::empty()
    } else {
        trade_tasks(markets, goods.drop_last(), policy, capacity_cap, min_profit, prefix)
            + opt_seq(trade_task(markets, goods.last(), policy, capacity_cap, min_profit, prefix))
    }
}

/// Every task a system offers: ship buying where procurement asked for it, market
/// and shipyard refreshes, then one trade per good, goods in lexicographic order.
pub open spec fn system_tasks(prefix: Seq<char>, buy_ships_at: Option<Seq<char>>, markets: Seq<MarketEntry>, yards: Seq<ShipyardEntry>, probes: Seq<String>, policy: ConstructionPolicy, now: int, capacity_cap: int, min_profit: int) -> Seq<TaskView> {
    let buy = match buy_ships_at {
        Some(wp) => seq![buy_ships_task(prefix, wp)],
        None => Seq::empty(),
    };
    buy + market_refresh_tasks(markets, probes, now, prefix) + shipyard_refresh_tasks(yards, probes, prefix)
        + trade_tasks(markets, sorted_goods(markets), policy, capacity_cap, min_profit, prefix)
}

proof fn lemma_tasks_view_push(v: Seq<Task>, t: Task)
    ensures
        tasks_view(v.push(t)) == tasks_view(v).push(t@),
{
    assert(tasks_view(v.push(t)) =~= tasks_view(v).push(t@));
}

/// Generates the task list of a system. `buy_ships_at` is the shipyard, within this
/// system, where procurement wants a ship brought, if any.
pub fn generate_task_list(
    prefix: &String,
    buy_ships_at: &Option<String>,
    markets: &Vec<MarketEntry>,
    shipyards: &Vec<ShipyardEntry>,
    probe_locations: &Vec<String>,
    policy: &ConstructionPolicy,
    now: i64,
    capacity_cap: i64,
    min_profit: i64,
) -> (r: Vec<Task>)
    requires
        markets_in_range(markets@),
        0 <= capacity_cap <= MAX_MARKET_VALUE,
    ensures
        tasks_view(r@) == system_tasks(
            prefix@,
            match buy_ships_at {
                Some(wp) => Some(wp@),
                None => None,
            },
            markets@,
            shipyards@,
            probe_locations@,
            *policy,
            now as int,
            capacity_cap as int,
            min_profit as int,
        ),
{
    let mut tasks: Vec<Task> = Vec::new();
    if let Some(wp) = buy_ships_at {
        tasks.push(Task {
            id: compose_id(prefix, "buyships_", wp),
            actions: TaskActions::VisitLocation { waypoint: wp.clone(), action: Action::TryBuyShips },
            value: 200000,
        });
        proof {
            assert(tasks_view(tasks@) =~= seq![buy_ships_task(prefix@, wp@)]);
        }
    } else {
        proof {
            assert(tasks_view(tasks@) =~= Seq::<TaskView>::empty());
        }
    }
    let ghost base = tasks_view(tasks@);
    let mut i: usize = 0;
    while i < markets.len()
        invariant
            i <= markets@.len(),
            tasks_view(tasks@) == base + market_refresh_tasks(markets@.take(i as int), probe_locations@, now as int, prefix@),
        decreases markets@.len() - i,
    {
        proof {
            assert(markets@.take(i + 1).drop_last() =~= markets@.take(i as int));
            assert(markets@.take(i + 1).last() == markets@[i as int]);
        }
        let m = &markets[i];
        let is_probed = contains_str(probe_locations, &m.symbol);
        let is_pure_exchange = m.exports.len() == 0 && m.imports.len() == 0;
        let ghost before = tasks_view(tasks@);
        if !is_probed && !is_pure_exchange {
            let sampled_at = match m.snapshot.as_ref() {
                Some(snap) => Some(snap.timestamp),
                None => None,
            };
            match market_refresh_value(now, sampled_at) {
                Some(v) => {
                    let t = Task {
                        id: compose_id(prefix, "refreshmarket_", &m.symbol),
                        actions: TaskActions::VisitLocation { waypoint: m.symbol.clone(), action: Action::RefreshMarket },
                        value: v,
                    };
                    proof {
                        lemma_tasks_view_push(tasks@, t);
                    }
                    tasks.push(t);
                },
                None => {},
            }
        }
        proof {
            assert(tasks_view(tasks@) =~= before + opt_seq(market_refresh_task(markets@[i as int], probe_locations@, now as int, prefix@)));
        }
        i += 1;
    }
    proof {
        assert(markets@.take(markets@.len() as int) =~= markets@);
    }
    let ghost base2 = tasks_view(tasks@);
    let mut i: usize = 0;
    while i < shipyards.len()
        invariant
            i <= shipyards@.len(),
            tasks_view(tasks@) == base2 + shipyard_refresh_tasks(shipyards@.take(i as int), probe_locations@, prefix@),
        decreases shipyards@.len() - i,
    {
        proof {
            assert(shipyards@.take(i + 1).drop_last() =~= shipyards@.take(i as int));
            assert(shipyards@.take(i + 1).last() == shipyards@[i as int]);
        }
        let y = &shipyards[i];
        let ghost before = tasks_view(tasks@);
        if !y.known && !contains_str(probe_locations, &y.symbol) {
            let t = Task {
                id: compose_id(prefix, "refreshshipyard_", &y.symbol),
                actions: TaskActions::VisitLocation { waypoint: y.symbol.clone(), action: Action::RefreshShipyard },
                value: 5000,
            };
            proof {
                lemma_tasks_view_push(tasks@, t);
            }
            tasks.push(t);
        }
        proof {
            assert(tasks_view(tasks@) =~= before + opt_seq(shipyard_refresh_task(shipyards@[i as int], probe_locations@, prefix@)));
        }
        i += 1;
    }
    proof {
        assert(shipyards@.take(shipyards@.len() as int) =~= shipyards@);
    }
    let goods = sorted_distinct_goods(markets);
    let ghost base3 = tasks_view(tasks@);
    let mut i: usize = 0;
    while i < goods.len()
        invariant
            markets_in_range(markets@),
            0 <= capacity_cap <= MAX_MARKET_VALUE,
            i <= goods@.len(),
            tasks_view(tasks@) == base3 + trade_tasks(markets@, strs_view(goods@).take(i as int), *policy, capacity_cap as int, min_profit as int, prefix@),
        decreases goods@.len() - i,
    {
        proof {
            assert(strs_view(goods@).take(i + 1).drop_last() =~= strs_view(goods@).take(i as int));
            assert(strs_view(goods@).take(i + 1).last() == goods@[i as int]@);
        }
        let ghost before = tasks_view(tasks@);
        match arbitrage_task(markets, &goods[i], policy, capacity_cap, min_profit, prefix) {
            Some(t) => {
                proof {
                    lemma_tasks_view_push(tasks@, t);
                }
                tasks.push(t);
            },
            None => {},
        }
        proof {
            assert(tasks_view(tasks@) =~= before + opt_seq(trade_task(markets@, goods@[i as int]@, *policy, capacity_cap as int, min_profit as int, prefix@)));
        }
        i += 1;
    }
    proof {
        assert(strs_view(goods@).take(goods@.len() as int) =~= strs_view(goods@));
        assert(tasks_view(tasks@) =~= system_tasks(
            prefix@,
            match buy_ships_at {
                Some(wp) => Some(wp@),
                None => None,
            },
            markets@,
            shipyards@,
            probe_locations@,
            *policy,
            now as int,
            capacity_cap as int,
            min_profit as int,
        ));
    }
    tasks
}

/// A copy of an action.
pub fn copy_action(a: &Action) -> (r: Action)
    ensures
        r@ == a@,
{
    match a {
        Action::RefreshMarket => Action::RefreshMarket,
        Action::RefreshShipyard => Action::RefreshShipyard,
        Action::BuyGoods(g, u) => Action::BuyGoods(g.clone(), *u),
        Action::SellGoods(g, u) => Action::SellGoods(g.clone(), *u),
        Action::DeliverConstruction(g, u) => Action::DeliverConstruction(g.clone(), *u),
        Action::DeliverContract(g, u) => Action::DeliverContract(g.clone(), *u),
        Action::SupplyConstruction(g, u) => Action::SupplyConstruction(g.clone(), *u),
        Action::Jettison(g, u) => Action::Jettison(g.clone(), *u),
        Action::TryBuyShips => Action::TryBuyShips,
        Action::TransferCargo => Action::TransferCargo,
        Action::ReceiveCargo => Action::ReceiveCargo,
        Action::Siphon => Action::Siphon,
        Action::Survey => Action::Survey,
        Action::ExtractSurvey(k) => Action::ExtractSurvey(k.clone()),
        Action::Scrap => Action::Scrap,
        Action::SetFlightMode(m) => Action::SetFlightMode(*m),
        Action::Jump(w) => Action::Jump(w.clone()),
        Action::Warp(m, w) => Action::Warp(*m, w.clone()),
    }
}

/// A copy of a task.
pub fn copy_task(t: &Task) -> (r: Task)
    ensures
        r@ == t@,
{
    let actions = match &t.actions {
        TaskActions::VisitLocation { waypoint, action } => TaskActions::VisitLocation {
            waypoint: waypoint.clone(),
            action: copy_action(action),
        },
        TaskActions::TransportCargo { src, dest, src_action, dest_action } => TaskActions::TransportCargo {
            src: src.clone(),
            dest: dest.clone(),
            src_action: copy_action(src_action),
            dest_action: copy_action(dest_action),
        },
    };
    Task { id: t.id.clone(), actions, value: t.value }
}

/// A task held by a ship since a time (seconds since the epoch).
pub struct TaskAssignment {
    pub task: Task,
    pub ship: String,
    pub started_at: i64,
}

/// The task manager of the starting system: the tasks currently held, at most one
/// entry per task id.
pub struct LogisticTaskManager {
    pub start_system: String,
    pub entries: Vec<TaskAssignment>,
}

impl LogisticTaskManager {
    pub open spec fn wf(self) -> bool {
        forall|i: int, j: int|
            0 <= i < self.entries@.len() && 0 <= j < self.entries@.len() && i != j
                ==> self.entries@[i].task.id@ != self.entries@[j].task.id@
    }

    /// The ship holding task `id`, if any.
    pub open spec fn holder(self, id: Seq<char>) -> Option<Seq<char>> {
        if exists|i: int| 0 <= i < self.entries@.len() && (#[trigger] self.entries@[i]).task.id@ == id {
            let i = choose|i: int| 0 <= i < self.entries@.len() && (#[trigger] self.entries@[i]).task.id@ == id;
            Some(self.entries@[i].ship@)
        } else {
            None
        }
    }

    pub fn new(start_system: &String) -> (r: LogisticTaskManager)
        ensures
            r.wf(),
            r.start_system@ == start_system@,
            forall|id: Seq<char>| r.holder(id) is None,
    {
        LogisticTaskManager { start_system: start_system.clone(), entries: Vec::new() }
    }

    /// The tasks currently held.
    pub fn in_progress_tasks(&self) -> (r: &Vec<TaskAssignment>)
        ensures
            r@ == self.entries@,
    {
        &self.entries
    }

    /// The task list of `system`; ids outside the starting system carry the system's
    /// symbol. `buy_ships_at` is the shipyard where procurement wants a ship brought,
    /// with the system it lies in: the buy-ships task is emitted only when that is
    /// `system`. See `generate_task_list`.
    pub fn generate_task_list(
        &self,
        system: &String,
        buy_ships_at: &Option<(String, String)>,
        markets: &Vec<MarketEntry>,
        shipyards: &Vec<ShipyardEntry>,
        probe_locations: &Vec<String>,
        policy: &ConstructionPolicy,
        now: i64,
        capacity_cap: i64,
        min_profit: i64,
    ) -> (r: Vec<Task>)
        requires
            markets_in_range(markets@),
            0 <= capacity_cap <= MAX_MARKET_VALUE,
        ensures
            tasks_view(r@) == system_tasks(
                id_prefix(system@, self.start_system@),
                match buy_ships_at {
                    Some((wp, wp_system)) => if wp_system@ == system@ { Some(wp@) } else { None },
                    None => None,
                },
                markets@,
                shipyards@,
                probe_locations@,
                *policy,
                now as int,
                capacity_cap as int,
                min_profit as int,
            ),
    {
        let prefix = task_id_prefix(system, &self.start_system);
        let here: Option<String> = match buy_ships_at {
            Some((wp, wp_system)) => if *wp_system == *system { Some(wp.clone()) } else { None },
            None => None,
        };
        generate_task_list(&prefix, &here, markets, shipyards, probe_locations, policy, now, capacity_cap, min_profit)
    }

    /// Whether task `id` is held.
    pub fn contains(&self, id: &String) -> (r: bool)
        ensures
            r == self.holder(id@) is Some,
    {
        let mut i: usize = 0;
        while i < self.entries.len()
            invariant
                i <= self.entries@.len(),
                forall|k: int| 0 <= k < i ==> (#[trigger] self.entries@[k]).task.id@ != id@,
            decreases self.entries@.len() - i,
        {
            if self.entries[i].task.id == *id {
                return true;
            }
            i += 1;
        }
        false
    }

    /// The ship holding task `id`.
    pub fn get_assigned_task_status(&self, id: &String) -> (r: Option<String>)
        requires
            self.wf(),
        ensures
            match r {
                Some(s) => self.holder(id@) == Some(s@),
                None => self.holder(id@) is None,
            },
    {
        let mut i: usize = 0;
        while i < self.entries.len()
            invariant
                self.wf(),
                i <= self.entries@.len(),
                forall|k: int| 0 <= k < i ==> (#[trigger] self.entries@[k]).task.id@ != id@,
            decreases self.entries@.len() - i,
        {
            if self.entries[i].task.id == *id {
                proof {
                    let j = choose|j: int| 0 <= j < self.entries@.len() && (#[trigger] self.entries@[j]).task.id@ == id@;
                    assert(j == i as int);
                }
                return Some(self.entries[i].ship.clone());
            }
            i += 1;
        }
        None
    }

    /// Drops every task held by `ship`: the others keep their holders.
    pub fn release_ship(&mut self, ship: &String)
        requires
            old(self).wf(),
        ensures
            final(self).wf(),
            forall|id: Seq<char>| #[trigger] final(self).holder(id) == match old(self).holder(id) {
                Some(s) => if s == ship@ { None } else { Some(s) },
                None => None,
            },
    {
        let ghost old_entries = self.entries@;
        let mut kept: Vec<TaskAssignment> = Vec::new();
        let ghost mut idx: Seq<int> = Seq::empty();
        let n = self.entries.len();
        let mut i: usize = 0;
        while i < n
            invariant
                old(self).wf(),
                self.entries@ == old_entries,
                old_entries == old(self).entries@,
                n == old_entries.len(),
                i <= n,
                kept@.len() == idx.len(),
                forall|k: int| 0 <= k < idx.len() ==> 0 <= #[trigger] idx[k] < i
                    && kept@[k].task.id@ == old_entries[idx[k]].task.id@ && kept@[k].ship@ == old_entries[idx[k]].ship@
                    && kept@[k].ship@ != ship@,
                forall|k: int, l: int| 0 <= k < l < idx.len() ==> idx[k] < idx[l],
                forall|m: int| 0 <= m < i && (#[trigger] old_entries[m]).ship@ != ship@ ==> exists|k: int|
                    0 <= k < idx.len() && idx[k] == m,
            decreases n - i,
        {
            let ghost old_idx = idx;
            if self.entries[i].ship != *ship {
                let e = &self.entries[i];
                kept.push(TaskAssignment { task: copy_task(&e.task), ship: e.ship.clone(), started_at: e.started_at });
                proof {
                    idx = idx.push(i as int);
                }
            }
            proof {
                assert forall|m: int| 0 <= m < i + 1 && (#[trigger] old_entries[m]).ship@ != ship@ implies exists|k: int|
                    0 <= k < idx.len() && idx[k] == m by {
                    if m == i {
                        assert(idx[idx.len() - 1] == m);
                    } else {
                        let k = choose|k: int| 0 <= k < old_idx.len() && old_idx[k] == m;
                        assert(idx[k] == old_idx[k]);
                    }
                }
            }
            i += 1;
        }
        self.entries = kept;
        proof {
            assert forall|a: int, b: int| 0 <= a < self.entries@.len() && 0 <= b < self.entries@.len() && a != b
                implies self.entries@[a].task.id@ != self.entries@[b].task.id@ by {
                if a < b {
                    assert(idx[a] < idx[b]);
                } else {
                    assert(idx[b] < idx[a]);
                }
            }
            assert forall|id: Seq<char>| #[trigger] self.holder(id) == match old(self).holder(id) {
                Some(s) => if s == ship@ { None } else { Some(s) },
                None => None,
            } by {
                if self.holder(id) is Some {
                    let k = choose|k: int| 0 <= k < self.entries@.len() && (#[trigger] self.entries@[k]).task.id@ == id;
                    let m = idx[k];
                    assert(old_entries[m].task.id@ == id);
                    let m2 = choose|m2: int| 0 <= m2 < old_entries.len() && (#[trigger] old_entries[m2]).task.id@ == id;
                    assert(m2 == m);
                }
                if old(self).holder(id) is Some {
                    let m = choose|m: int| 0 <= m < old_entries.len() && (#[trigger] old_entries[m]).task.id@ == id;
                    if old_entries[m].ship@ != ship@ {
                        let k = choose|k: int| 0 <= k < idx.len() && idx[k] == m;
                        assert(self.entries@[k].task.id@ == id);
                        let k2 = choose|k2: int| 0 <= k2 < self.entries@.len() && (#[trigger] self.entries@[k2]).task.id@ == id;
                        assert(k2 == k);
                    } else {
                        assert forall|k: int| 0 <= k < self.entries@.len() implies (#[trigger] self.entries@[k]).task.id@ != id by {
                            assert(idx[k] != m || self.entries@[k].ship@ != ship@);
                        }
                    }
                }
            }
        }
    }

    /// Records that `ship` holds `task` from `now` on.
    pub fn assign(&mut self, task: Task, ship: &String, now: i64)
        requires
            old(self).wf(),
            old(self).holder(task@.id) is None,
        ensures
            final(self).wf(),
            final(self).holder(task@.id) == Some(ship@),
            forall|id: Seq<char>| id != task@.id ==> #[trigger] final(self).holder(id) == old(self).holder(id),
    {
        let ghost tid = task@.id;
        let ghost old_entries = self.entries@;
        self.entries.push(TaskAssignment { task, ship: ship.clone(), started_at: now });
        proof {
            let n = old_entries.len() as int;
            assert forall|a: int, b: int| 0 <= a < self.entries@.len() && 0 <= b < self.entries@.len() && a != b
                implies self.entries@[a].task.id@ != self.entries@[b].task.id@ by {
                if a == n {
                    assert(self.entries@[b] == old_entries[b]);
                } else if b == n {
                    assert(self.entries@[a] == old_entries[a]);
                }
            }
            assert(self.entries@[n].task.id@ == tid);
            assert forall|id: Seq<char>| id != tid implies #[trigger] self.holder(id) == old(self).holder(id) by {
                if self.holder(id) is Some {
                    let k = choose|k: int| 0 <= k < self.entries@.len() && (#[trigger] self.entries@[k]).task.id@ == id;
                    assert(old_entries[k] == self.entries@[k]);
                }
                if old(self).holder(id) is Some {
                    let k = choose|k: int| 0 <= k < old_entries.len() && (#[trigger] old_entries[k]).task.id@ == id;
                    assert(old_entries[k] == self.entries@[k]);
                }
            }
        }
    }

    /// Marks task `id` done: nobody holds it any more, the other tasks keep their holders.
    pub fn set_task_completed(&mut self, id: &String)
        requires
            old(self).wf(),
        ensures
            final(self).wf(),
            final(self).holder(id@) is None,
            forall|other: Seq<char>| other != id@ ==> #[trigger] final(self).holder(other) == old(self).holder(other),
    {
        let mut i: usize = 0;
        while i < self.entries.len()
            invariant
                self.wf(),
                *self == *old(self),
                i <= self.entries@.len(),
                forall|k: int| 0 <= k < i ==> (#[trigger] self.entries@[k]).task.id@ != id@,
            decreases self.entries@.len() - i,
        {
            if self.entries[i].task.id == *id {
                let ghost old_entries = self.entries@;
                self.entries.remove(i);
                proof {
                    assert forall|a: int, b: int| 0 <= a < self.entries@.len() && 0 <= b < self.entries@.len() && a != b
                        implies self.entries@[a].task.id@ != self.entries@[b].task.id@ by {
                        let oa = if a < i { a } else { a + 1 };
                        let ob = if b < i { b } else { b + 1 };
                        assert(self.entries@[a] == old_entries[oa]);
                        assert(self.entries@[b] == old_entries[ob]);
                    }
                    assert forall|k: int| 0 <= k < self.entries@.len() implies (#[trigger] self.entries@[k]).task.id@ != id@ by {
                        let ok = if k < i { k } else { k + 1 };
                        assert(self.entries@[k] == old_entries[ok]);
                    }
                    assert forall|other: Seq<char>| other != id@ implies #[trigger] self.holder(other) == old(self).holder(other) by {
                        if self.holder(other) is Some {
                            let k = choose|k: int| 0 <= k < self.entries@.len() && (#[trigger] self.entries@[k]).task.id@ == other;
                            let ok = if k < i { k } else { k + 1 };
                            assert(self.entries@[k] == old_entries[ok]);
                            let k2 = choose|k2: int| 0 <= k2 < old_entries.len() && (#[trigger] old_entries[k2]).task.id@ == other;
                            assert(k2 == ok);
                        }
                        if old(self).holder(other) is Some {
                            let k = choose|k: int| 0 <= k < old_entries.len() && (#[trigger] old_entries[k]).task.id@ == other;
                            assert(k != i);
                            let nk = if k < i { k } else { k - 1 };
                            assert(self.entries@[nk] == old_entries[k]);
                        }
                    }
                }
                return;
            }
            i += 1;
        }
    }
}

/// The index of the first task of the highest value, if any has a value above zero.
pub open spec fn best_task(tasks: Seq<TaskView>) -> Option<int>
    decreases tasks.len(),
{
    if tasks.len() == 0 {
        None
    } else {
        let prev = best_task(tasks.drop_last());
        let bar = match prev {
            Some(i) => tasks[i].value,
            None => 0,
        };
        if tasks.last().value > bar { Some(tasks.len() - 1) } else { prev }
    }
}

proof fn lemma_best_task_in_range(tasks: Seq<TaskView>)
    ensures
        best_task(tasks) matches Some(i) ==> 0 <= i < tasks.len(),
    decreases tasks.len(),
{
    if tasks.len() > 0 {
        lemma_best_task_in_range(tasks.drop_last());
    }
}

/// The first task of the highest value, if any has a value above zero.
pub fn highest_value_task(tasks: &Vec<Task>) -> (r: Option<usize>)
    ensures
        match r {
            Some(i) => best_task(tasks_view(tasks@)) == Some(i as int),
            None => best_task(tasks_view(tasks@)) is None,
        },
{
    let mut best: Option<usize> = None;
    let mut highest: i64 = 0;
    let mut i: usize = 0;
    while i < tasks.len()
        invariant
            i <= tasks@.len(),
            match best {
                Some(b) => best_task(tasks_view(tasks@).take(i as int)) == Some(b as int) && b < i && highest == tasks@[b as int].value,
                None => best_task(tasks_view(tasks@).take(i as int)) is None && highest == 0,
            },
        decreases tasks@.len() - i,
    {
        proof {
            let tv = tasks_view(tasks@);
            assert(tv.take(i + 1).drop_last() =~= tv.take(i as int));
            assert(tv.take(i + 1).last() == tasks@[i as int]@);
            match best {
                Some(b) => {
                    assert(tv.take(i + 1)[b as int] == tasks@[b as int]@);
                },
                None => {},
            }
        }
        if tasks[i].value > highest {
            highest = tasks[i].value;
            best = Some(i);
        }
        i += 1;
    }
    proof {
        assert(tasks_view(tasks@).take(tasks@.len() as int) =~= tasks_view(tasks@));
    }
    best
}

/// A scheduled action as plain values: waypoint, action, and the task it completes.
pub open spec fn step_view(a: ScheduledAction) -> (Seq<char>, ActionView, Option<Seq<char>>) {
    (a.waypoint@, a.action@, match a.completes_task_id {
        Some(id) => Some(id@),
        None => None,
    })
}

/// The steps that carry out task `t` on its own: its visit, or its pick-up then its
/// delivery, the last step completing the task.
pub open spec fn task_steps(t: TaskView) -> Seq<(Seq<char>, ActionView, Option<Seq<char>>)> {
    match t.actions {
        TaskActionsView::VisitLocation { waypoint, action } => seq![(waypoint, action, Some(t.id))],
        TaskActionsView::TransportCargo { src, dest, src_action, dest_action } => seq![
            (src, src_action, None),
            (dest, dest_action, Some(t.id)),
        ],
    }
}

/// The schedule that carries out `task` on its own.
pub fn schedule_task(task: &Task) -> (r: Vec<ScheduledAction>)
    ensures
        r@.map_values(|a: ScheduledAction| step_view(a)) == task_steps(task@),
{
    let mut r: Vec<ScheduledAction> = Vec::new();
    match &task.actions {
        TaskActions::VisitLocation { waypoint, action } => {
            r.push(ScheduledAction {
                timestamp: 0,
                waypoint: waypoint.clone(),
                action: copy_action(action),
                completes_task_id: Some(task.id.clone()),
            });
        },
        TaskActions::TransportCargo { src, dest, src_action, dest_action } => {
            r.push(ScheduledAction {
                timestamp: 0,
                waypoint: src.clone(),
                action: copy_action(src_action),
                completes_task_id: None,
            });
            r.push(ScheduledAction {
                timestamp: 0,
                waypoint: dest.clone(),
                action: copy_action(dest_action),
                completes_task_id: Some(task.id.clone()),
            });
        },
    }
    proof {
        assert(r@.map_values(|a: ScheduledAction| step_view(a)) =~= task_steps(task@));
    }
    r
}

/// Task `id` is free for `ship`: nobody holds it, or `ship` itself does.
pub open spec fn free_for(tasks: LogisticTaskManager, ship: Seq<char>, id: Seq<char>) -> bool {
    match tasks.holder(id) {
        Some(s) => s == ship,
        None => true,
    }
}

/// The tasks `ship` may be given out of `all`.
pub open spec fn open_tasks(tasks: LogisticTaskManager, ship: Seq<char>, all: Seq<TaskView>, config: LogisticsScriptConfig) -> Seq<TaskView>
    decreases all.len(),
{
    if all.len() == 0 {
        Seq::empty()
    } else {
        let prev = open_tasks(tasks, ship, all.drop_last(), config);
        if free_for(tasks, ship, all.last().id) && task_allowed(all.last(), config) {
            prev.push(all.last())
        } else {
            prev
        }
    }
}

proof fn lemma_open_tasks_free(tasks: LogisticTaskManager, ship: Seq<char>, all: Seq<TaskView>, config: LogisticsScriptConfig)
    ensures
        forall|k: int| 0 <= k < open_tasks(tasks, ship, all, config).len() ==> {
            &&& free_for(tasks, ship, (#[trigger] open_tasks(tasks, ship, all, config)[k]).id)
            &&& task_allowed(open_tasks(tasks, ship, all, config)[k], config)
        },
    decreases all.len(),
{
    if all.len() > 0 {
        lemma_open_tasks_free(tasks, ship, all.drop_last(), config);
    }
}

/// The holders after `ship` took tasks out of `all`: its previous tasks are
/// released, and it holds the task it was given, if any; the rest is unchanged.
pub open spec fn holders_after_take(before: LogisticTaskManager, after: LogisticTaskManager, ship: Seq<char>, all: Seq<TaskView>, config: LogisticsScriptConfig) -> bool {
    let open = open_tasks(before, ship, all, config);
    match best_task(open) {
        Some(i) => {
            &&& after.holder(open[i].id) == Some(ship)
            &&& forall|id: Seq<char>| id != open[i].id ==> #[trigger] after.holder(id)
                == (if free_for(before, ship, id) { None } else { before.holder(id) })
        },
        None => forall|id: Seq<char>| #[trigger] after.holder(id)
            == (if free_for(before, ship, id) { None } else { before.holder(id) }),
    }
}

proof fn lemma_open_tasks_same(a: LogisticTaskManager, b: LogisticTaskManager, ship: Seq<char>, all: Seq<TaskView>, config: LogisticsScriptConfig)
    requires
        forall|k: int| 0 <= k < all.len() ==> free_for(a, ship, (#[trigger] all[k]).id) == free_for(b, ship, all[k].id),
    ensures
        open_tasks(a, ship, all, config) == open_tasks(b, ship, all, config),
    decreases all.len(),
{
    if all.len() > 0 {
        assert forall|k: int| 0 <= k < all.drop_last().len() implies free_for(a, ship, (#[trigger] all.drop_last()[k]).id) == free_for(b, ship, all.drop_last()[k].id) by {
            assert(all.drop_last()[k] == all[k]);
        }
        lemma_open_tasks_same(a, b, ship, all.drop_last(), config);
        assert(all[all.len() - 1] == all.last());
    }
}

/// Taking tasks twice in a row for the same ship, with the same task list and
/// configuration, offers it the same tasks the second time: it is given the same
/// task and the same schedule again.
pub proof fn lemma_take_tasks_twice(before: LogisticTaskManager, between: LogisticTaskManager, ship: Seq<char>, all: Seq<TaskView>, config: LogisticsScriptConfig)
    requires
        before.wf(),
        holders_after_take(before, between, ship, all, config),
    ensures
        open_tasks(between, ship, all, config) == open_tasks(before, ship, all, config),
        best_task(open_tasks(between, ship, all, config)) == best_task(open_tasks(before, ship, all, config)),
{
    let open = open_tasks(before, ship, all, config);
    lemma_open_tasks_free(before, ship, all, config);
    assert forall|k: int| 0 <= k < all.len() implies free_for(between, ship, (#[trigger] all[k]).id) == free_for(before, ship, all[k].id) by {
        let id = all[k].id;
        match best_task(open) {
            Some(i) => {
                lemma_best_task_in_range(open);
                if id == open[i].id {
                    assert(free_for(before, ship, open[i].id));
                }
            },
            None => {},
        }
    }
    lemma_open_tasks_same(between, before, ship, all, config);
}

impl LogisticTaskManager {
    /// Gives `ship` a schedule: its previous tasks are released, `5000 * cargo_capacity`
    /// credits are reserved for it, and of the tasks of `all_tasks` that nobody else
    /// holds and its configuration allows, the first of the highest value is assigned
    /// to it and scheduled on its own.
    pub fn take_tasks(&mut self, ledger: &mut Ledger, ship: &String, all_tasks: &Vec<Task>, config: &LogisticsScriptConfig, cargo_capacity: i64, now: i64) -> (r: ShipSchedule)
        requires
            old(self).wf(),
            old(ledger).wf(),
            0 <= cargo_capacity <= 100_000_000,
            old(ledger).index_of(ship@) is Some || old(ledger).entries@.len() < MAX_KEYS,
        ensures
            final(self).wf(),
            final(ledger).wf(),
            final(ledger).credits == old(ledger).credits,
            final(ledger).reserved_for(ship@) == CREDITS_PER_CARGO_UNIT * cargo_capacity,
            final(ledger).index_of(ship@) is Some,
            forall|k: Seq<char>| k != ship@ ==> final(ledger).reserved_for(k) == old(ledger).reserved_for(k),
            r.ship@ == ship@,
            holders_after_take(*old(self), *final(self), ship@, tasks_view(all_tasks@), *config),
            ({
                let open = open_tasks(*old(self), ship@, tasks_view(all_tasks@), *config);
                match best_task(open) {
                    Some(i) => r.actions@.map_values(|a: ScheduledAction| step_view(a)) == task_steps(open[i]),
                    None => r.actions@.len() == 0,
                }
            }),
    {
        self.release_ship(ship);
        ledger.reserve_credits(ship, CREDITS_PER_CARGO_UNIT * cargo_capacity);
        let ghost released = *self;
        proof {
            assert forall|id: Seq<char>| released.holder(id) is None <==> free_for(*old(self), ship@, id) by {}
        }
        let mut available: Vec<Task> = Vec::new();
        let mut i: usize = 0;
        while i < all_tasks.len()
            invariant
                *self == released,
                forall|id: Seq<char>| released.holder(id) is None <==> free_for(*old(self), ship@, id),
                i <= all_tasks@.len(),
                tasks_view(available@) == open_tasks(*old(self), ship@, tasks_view(all_tasks@).take(i as int), *config),
            decreases all_tasks@.len() - i,
        {
            proof {
                let tv = tasks_view(all_tasks@);
                assert(tv.take(i + 1).drop_last() =~= tv.take(i as int));
                assert(tv.take(i + 1).last() == all_tasks@[i as int]@);
            }
            let t = &all_tasks[i];
            if !self.contains(&t.id) && is_task_allowed(t, config) {
                let c = copy_task(t);
                proof {
                    lemma_tasks_view_push(available@, c);
                }
                available.push(c);
            }
            i += 1;
        }
        proof {
            assert(tasks_view(all_tasks@).take(all_tasks@.len() as int) =~= tasks_view(all_tasks@));
        }
        let ghost open = open_tasks(*old(self), ship@, tasks_view(all_tasks@), *config);
        match highest_value_task(&available) {
            Some(b) => {
                proof {
                    lemma_best_task_in_range(tasks_view(available@));
                    lemma_open_tasks_free(*old(self), ship@, tasks_view(all_tasks@), *config);
                    assert(tasks_view(available@)[b as int] == available@[b as int]@);
                }
                let actions = schedule_task(&available[b]);
                let task = copy_task(&available[b]);
                self.assign(task, ship, now);
                ShipSchedule { ship: ship.clone(), actions }
            },
            None => {
                let actions: Vec<ScheduledAction> = Vec::new();
                ShipSchedule { ship: ship.clone(), actions }
            },
        }
    }
}

/// A held task has exactly one holder, the ship of its single entry.
pub proof fn lemma_single_holder(t: LogisticTaskManager, id: Seq<char>)
    requires
        t.wf(),
    ensures
        forall|i: int, j: int|
            0 <= i < t.entries@.len() && 0 <= j < t.entries@.len() && (#[trigger] t.entries@[i]).task.id@ == id
                && (#[trigger] t.entries@[j]).task.id@ == id ==> i == j,
        t.holder(id) matches Some(s) ==> exists|i: int|
            0 <= i < t.entries@.len() && (#[trigger] t.entries@[i]).task.id@ == id && t.entries@[i].ship@ == s,
{
}

/// Some task of `open` has id `id`.
pub open spec fn has_task(open: Seq<TaskView>, id: Seq<char>) -> bool {
    exists|k: int| 0 <= k < open.len() && (#[trigger] open[k]).id == id
}

/// The holder of `id` once `ship`'s tasks are released.
pub open spec fn released_holder(before: LogisticTaskManager, ship: Seq<char>, id: Seq<char>) -> Option<Seq<char>> {
    if free_for(before, ship, id) { None } else { before.holder(id) }
}

/// The index of the first task of `v` with id `id`.
fn find_task(v: &Vec<Task>, id: &String) -> (r: Option<usize>)
    ensures
        match r {
            Some(k) => k < v@.len() && v@[k as int]@.id == id@,
            None => !has_task(tasks_view(v@), id@),
        },
{
    let mut k: usize = 0;
    while k < v.len()
        invariant
            k <= v@.len(),
            forall|j: int| 0 <= j < k ==> (#[trigger] v@[j]).id@ != id@,
        decreases v@.len() - k,
    {
        if v[k].id == *id {
            return Some(k);
        }
        k += 1;
    }
    proof {
        assert forall|j: int| 0 <= j < tasks_view(v@).len() implies (#[trigger] tasks_view(v@)[j]).id != id@ by {
            assert(tasks_view(v@)[j] == v@[j]@);
        }
    }
    None
}

impl LogisticTaskManager {
    /// The tasks of `all_tasks` that `ship` may be given now.
    fn open_task_list(&self, ship: &String, all_tasks: &Vec<Task>, config: &LogisticsScriptConfig) -> (r: Vec<Task>)
        requires
            self.wf(),
        ensures
            tasks_view(r@) == open_tasks(*self, ship@, tasks_view(all_tasks@), *config),
    {
        let mut available: Vec<Task> = Vec::new();
        let mut i: usize = 0;
        while i < all_tasks.len()
            invariant
                self.wf(),
                i <= all_tasks@.len(),
                tasks_view(available@) == open_tasks(*self, ship@, tasks_view(all_tasks@).take(i as int), *config),
            decreases all_tasks@.len() - i,
        {
            proof {
                let tv = tasks_view(all_tasks@);
                assert(tv.take(i + 1).drop_last() =~= tv.take(i as int));
                assert(tv.take(i + 1).last() == all_tasks@[i as int]@);
            }
            let t = &all_tasks[i];
            let free = match self.get_assigned_task_status(&t.id) {
                Some(holder) => holder == *ship,
                None => true,
            };
            if free && is_task_allowed(t, config) {
                let c = copy_task(t);
                proof {
                    lemma_tasks_view_push(available@, c);
                }
                available.push(c);
            }
            i += 1;
        }
        proof {
            assert(tasks_view(all_tasks@).take(all_tasks@.len() as int) =~= tasks_view(all_tasks@));
        }
        available
    }

    /// Gives `ship` the schedule a planner made for it. With an empty plan this is
    /// `take_tasks`. Otherwise the ship's previous tasks are released, `5000 *
    /// cargo_capacity` credits are reserved for it, it holds each task of `planned`
    /// that it may be given, and the plan is its schedule.
    pub fn take_tasks_with_plan(
        &mut self,
        ledger: &mut Ledger,
        ship: &String,
        all_tasks: &Vec<Task>,
        config: &LogisticsScriptConfig,
        cargo_capacity: i64,
        now: i64,
        plan: Vec<ScheduledAction>,
        planned: &Vec<String>,
    ) -> (r: ShipSchedule)
        requires
            old(self).wf(),
            old(ledger).wf(),
            0 <= cargo_capacity <= 100_000_000,
            old(ledger).index_of(ship@) is Some || old(ledger).entries@.len() < MAX_KEYS,
        ensures
            final(self).wf(),
            final(ledger).wf(),
            final(ledger).credits == old(ledger).credits,
            final(ledger).reserved_for(ship@) == CREDITS_PER_CARGO_UNIT * cargo_capacity,
            final(ledger).index_of(ship@) is Some,
            forall|k: Seq<char>| k != ship@ ==> final(ledger).reserved_for(k) == old(ledger).reserved_for(k),
            r.ship@ == ship@,
            plan@.len() == 0 ==> {
                &&& holders_after_take(*old(self), *final(self), ship@, tasks_view(all_tasks@), *config)
                &&& match best_task(open_tasks(*old(self), ship@, tasks_view(all_tasks@), *config)) {
                    Some(i) => r.actions@.map_values(|a: ScheduledAction| step_view(a))
                        == task_steps(open_tasks(*old(self), ship@, tasks_view(all_tasks@), *config)[i]),
                    None => r.actions@.len() == 0,
                }
            },
            plan@.len() > 0 ==> {
                &&& r.actions@ == plan@
                &&& forall|id: Seq<char>| #[trigger] final(self).holder(id) == if has_str(planned@, id)
                    && has_task(open_tasks(*old(self), ship@, tasks_view(all_tasks@), *config), id) {
                    Some(ship@)
                } else {
                    released_holder(*old(self), ship@, id)
                }
            },
    {
        if plan.len() == 0 {
            return self.take_tasks(ledger, ship, all_tasks, config, cargo_capacity, now);
        }
        let open = self.open_task_list(ship, all_tasks, config);
        let ghost openv = tasks_view(open@);
        proof {
            lemma_open_tasks_free(*old(self), ship@, tasks_view(all_tasks@), *config);
        }
        self.release_ship(ship);
        ledger.reserve_credits(ship, CREDITS_PER_CARGO_UNIT * cargo_capacity);
        let mut j: usize = 0;
        while j < planned.len()
            invariant
                self.wf(),
                openv == tasks_view(open@),
                openv == open_tasks(*old(self), ship@, tasks_view(all_tasks@), *config),
                forall|k: int| 0 <= k < openv.len() ==> free_for(*old(self), ship@, (#[trigger] openv[k]).id),
                j <= planned@.len(),
                forall|id: Seq<char>| #[trigger] self.holder(id) == if has_str(planned@.take(j as int), id) && has_task(openv, id) {
                    Some(ship@)
                } else {
                    released_holder(*old(self), ship@, id)
                },
            decreases planned@.len() - j,
        {
            let ghost before = *self;
            let id = &planned[j];
            proof {
                assert forall|x: Seq<char>| has_str(planned@.take(j + 1), x) == (has_str(planned@.take(j as int), x) || x == id@) by {
                    if has_str(planned@.take(j + 1), x) {
                        let k = choose|k: int| 0 <= k < planned@.take(j + 1).len() && (#[trigger] planned@.take(j + 1)[k])@ == x;
                        if k < j {
                            assert(planned@.take(j as int)[k] == planned@.take(j + 1)[k]);
                        }
                    }
                    if has_str(planned@.take(j as int), x) {
                        let k = choose|k: int| 0 <= k < planned@.take(j as int).len() && (#[trigger] planned@.take(j as int)[k])@ == x;
                        assert(planned@.take(j + 1)[k] == planned@.take(j as int)[k]);
                    }
                    if x == id@ {
                        assert(planned@.take(j + 1)[j as int] == planned@[j as int]);
                    }
                }
            }
            match find_task(&open, id) {
                Some(k) => {
                    if !self.contains(id) {
                        proof {
                            assert(openv[k as int] == open@[k as int]@);
                            assert(has_task(openv, id@));
                        }
                        let t = copy_task(&open[k]);
                        self.assign(t, ship, now);
                    }
                    proof {
                        assert(has_task(openv, id@)) by {
                            assert(openv[k as int] == open@[k as int]@);
                        }
                        assert forall|x: Seq<char>| #[trigger] self.holder(x) == if has_str(planned@.take(j + 1), x) && has_task(openv, x) {
                            Some(ship@)
                        } else {
                            released_holder(*old(self), ship@, x)
                        } by {
                            if x == id@ && before.holder(x) is None {
                                let kk = choose|kk: int| 0 <= kk < openv.len() && (#[trigger] openv[kk]).id == x;
                                assert(free_for(*old(self), ship@, openv[kk].id));
                            }
                        }
                    }
                },
                None => {},
            }
            j += 1;
        }
        proof {
            assert(planned@.take(planned@.len() as int) =~= planned@);
        }
        ShipSchedule { ship: ship.clone(), actions: plan }
    }
}

/// `a` comes before `b` in lexicographic order of their characters' code points.
pub open spec fn lex_less(a: Seq<char>, b: Seq<char>) -> bool
    decreases a.len(),
{
    if a.len() == 0 {
        b.len() > 0
    } else if b.len() == 0 {
        false
    } else if a[0] == b[0] {
        lex_less(a.subrange(1, a.len() as int), b.subrange(1, b.len() as int))
    } else {
        (a[0] as int) < (b[0] as int)
    }
}

proof fn lemma_lex_irreflexive(a: Seq<char>)
    ensures
        !lex_less(a, a),
    decreases a.len(),
{
    if a.len() > 0 {
        lemma_lex_irreflexive(a.subrange(1, a.len() as int));
    }
}

proof fn lemma_lex_total(a: Seq<char>, b: Seq<char>)
    ensures
        a != b ==> lex_less(a, b) || lex_less(b, a),
        !(lex_less(a, b) && lex_less(b, a)),
    decreases a.len(),
{
    if a.len() > 0 && b.len() > 0 {
        let ta = a.subrange(1, a.len() as int);
        let tb = b.subrange(1, b.len() as int);
        lemma_lex_total(ta, tb);
        if a[0] == b[0] && ta == tb {
            assert(a =~= seq![a[0]] + ta);
            assert(b =~= seq![b[0]] + tb);
        }
        if a[0] != b[0] {
            assert((a[0] as int) != (b[0] as int));
        }
    } else if a.len() == 0 && b.len() == 0 {
        assert(a =~= b);
    }
}

proof fn lemma_lex_transitive(a: Seq<char>, b: Seq<char>, c: Seq<char>)
    requires
        lex_less(a, b),
        lex_less(b, c),
    ensures
        lex_less(a, c),
    decreases a.len(),
{
    if a.len() > 0 && b.len() > 0 && c.len() > 0 {
        if a[0] == b[0] && b[0] == c[0] {
            lemma_lex_transitive(a.subrange(1, a.len() as int), b.subrange(1, b.len() as int), c.subrange(1, c.len() as int));
        }
    }
}

/// Whether `a` comes before `b` in lexicographic order of code points, the order
/// of `<` on strings.
fn str_less(a: &String, b: &String) -> (r: bool)
    ensures
        r == lex_less(a@, b@),
{
    let sa = a.as_str();
    let sb = b.as_str();
    let la = sa.unicode_len();
    let lb = sb.unicode_len();
    let mut i: usize = 0;
    proof {
        assert(a@.subrange(0, la as int) =~= a@);
        assert(b@.subrange(0, lb as int) =~= b@);
    }
    while i < la && i < lb
        invariant
            sa@ == a@,
            sb@ == b@,
            la == a@.len(),
            lb == b@.len(),
            i <= la,
            i <= lb,
            lex_less(a@, b@) == lex_less(a@.subrange(i as int, la as int), b@.subrange(i as int, lb as int)),
        decreases la - i,
    {
        let ca = sa.get_char(i);
        let cb = sb.get_char(i);
        let ghost ta = a@.subrange(i as int, la as int);
        let ghost tb = b@.subrange(i as int, lb as int);
        proof {
            assert(ta[0] == ca);
            assert(tb[0] == cb);
            assert(ta.subrange(1, ta.len() as int) =~= a@.subrange(i + 1, la as int));
            assert(tb.subrange(1, tb.len() as int) =~= b@.subrange(i + 1, lb as int));
        }
        if ca != cb {
            return (ca as u32) < (cb as u32);
        }
        i += 1;
    }
    la - i == 0 && lb - i > 0
}

/// `s` is in strictly increasing lexicographic order.
pub open spec fn strictly_sorted(s: Seq<Seq<char>>) -> bool {
    forall|i: int, j: int| 0 <= i < j < s.len() ==> #[trigger] lex_less(s[i], s[j])
}

/// The goods traded in the system, each once, in lexicographic order.
pub open spec fn sorted_goods(markets: Seq<MarketEntry>) -> Seq<Seq<char>> {
    choose|s: Seq<Seq<char>>| strictly_sorted(s) && forall|x: Seq<char>| #[trigger] s.contains(x) <==> goods_traded(markets).contains(x)
}

proof fn lemma_sorted_unique(s1: Seq<Seq<char>>, s2: Seq<Seq<char>>)
    requires
        strictly_sorted(s1),
        strictly_sorted(s2),
        forall|x: Seq<char>| #[trigger] s1.contains(x) <==> s2.contains(x),
    ensures
        s1 == s2,
    decreases s1.len(),
{
    if s1.len() == 0 {
        if s2.len() > 0 {
            assert(s2.contains(s2[0]));
            assert(!s1.contains(s2[0]));
        }
        assert(s1 =~= s2);
    } else {
        assert(s1.contains(s1[0]));
        assert(s2.contains(s1[0]));
        let k = choose|k: int| 0 <= k < s2.len() && s2[k] == s1[0];
        assert(s2.contains(s2[0]));
        assert(s1.contains(s2[0]));
        let m = choose|m: int| 0 <= m < s1.len() && s1[m] == s2[0];
        if k > 0 && m > 0 {
            assert(lex_less(s2[0], s2[k]));
            assert(lex_less(s1[0], s1[m]));
            lemma_lex_total(s1[0], s2[0]);
        }
        let t1 = s1.drop_first();
        let t2 = s2.drop_first();
        assert forall|x: Seq<char>| #[trigger] t1.contains(x) <==> t2.contains(x) by {
            if t1.contains(x) {
                let i = choose|i: int| 0 <= i < t1.len() && t1[i] == x;
                assert(s1[i + 1] == x);
                assert(lex_less(s1[0], s1[i + 1]));
                lemma_lex_irreflexive(x);
                assert(s1.contains(x));
                let j = choose|j: int| 0 <= j < s2.len() && s2[j] == x;
                assert(j != 0);
                assert(t2[j - 1] == x);
            }
            if t2.contains(x) {
                let i = choose|i: int| 0 <= i < t2.len() && t2[i] == x;
                assert(s2[i + 1] == x);
                assert(lex_less(s2[0], s2[i + 1]));
                lemma_lex_irreflexive(x);
                assert(s2.contains(x));
                assert(s1.contains(x));
                let j = choose|j: int| 0 <= j < s1.len() && s1[j] == x;
                assert(j != 0);
                assert(t1[j - 1] == x);
            }
        }
        assert forall|i: int, j: int| 0 <= i < j < t1.len() implies #[trigger] lex_less(t1[i], t1[j]) by {
            assert(lex_less(s1[i + 1], s1[j + 1]));
        }
        assert forall|i: int, j: int| 0 <= i < j < t2.len() implies #[trigger] lex_less(t2[i], t2[j]) by {
            assert(lex_less(s2[i + 1], s2[j + 1]));
        }
        lemma_sorted_unique(t1, t2);
        assert(s1 =~= seq![s1[0]] + t1);
        assert(s2 =~= seq![s2[0]] + t2);
    }
}

/// Inserts `g`, which `v` lacks, into the sorted `v`, keeping it sorted.
fn insert_sorted(v: &mut Vec<String>, g: String)
    requires
        strictly_sorted(strs_view(old(v)@)),
        !strs_view(old(v)@).contains(g@),
    ensures
        strictly_sorted(strs_view(final(v)@)),
        forall|x: Seq<char>| #[trigger] strs_view(final(v)@).contains(x) <==> (strs_view(old(v)@).contains(x) || x == g@),
{
    let ghost sv = strs_view(v@);
    let mut i: usize = 0;
    while i < v.len()
        invariant
            sv == strs_view(v@),
            strictly_sorted(sv),
            !sv.contains(g@),
            i <= v@.len(),
            forall|k: int| 0 <= k < i ==> lex_less(#[trigger] sv[k], g@),
        ensures
            sv == strs_view(v@),
            i <= v@.len(),
            forall|k: int| 0 <= k < i ==> lex_less(#[trigger] sv[k], g@),
            i < v@.len() ==> lex_less(g@, sv[i as int]),
        decreases v@.len() - i,
    {
        proof {
            assert(sv[i as int] == v@[i as int]@);
        }
        if str_less(&g, &v[i]) {
            break;
        }
        proof {
            assert(sv[i as int] == v@[i as int]@);
            lemma_lex_total(sv[i as int], g@);
            if sv[i as int] == g@ {
                assert(sv.contains(g@));
            }
        }
        i += 1;
    }
    let ghost gv = g@;
    let ghost at = i as int;
    v.insert(i, g);
    proof {
        let nv = strs_view(v@);
        assert(nv =~= sv.insert(at, gv));
        assert forall|a: int, b: int| 0 <= a < b < nv.len() implies #[trigger] lex_less(nv[a], nv[b]) by {
            if a < at && b == at {
                assert(lex_less(sv[a], gv));
            } else if a == at && b > at {
                assert(lex_less(gv, sv[at]));
                if b - 1 > at {
                    assert(lex_less(sv[at], sv[b - 1]));
                    lemma_lex_transitive(gv, sv[at], sv[b - 1]);
                }
            } else if a < at && b > at {
                assert(lex_less(sv[a], sv[b - 1]));
            } else if a > at {
                assert(lex_less(sv[a - 1], sv[b - 1]));
            } else {
                assert(lex_less(sv[a], sv[b]));
            }
        }
        assert forall|x: Seq<char>| #[trigger] nv.contains(x) <==> (sv.contains(x) || x == gv) by {
            if nv.contains(x) {
                let k = choose|k: int| 0 <= k < nv.len() && nv[k] == x;
                if k < at {
                    assert(sv[k] == x);
                } else if k > at {
                    assert(sv[k - 1] == x);
                }
            }
            if sv.contains(x) {
                let k = choose|k: int| 0 <= k < sv.len() && sv[k] == x;
                if k < at {
                    assert(nv[k] == x);
                } else {
                    assert(nv[k + 1] == x);
                }
            }
            if x == gv {
                assert(nv[at] == x);
            }
        }
    }
}

/// The goods traded in the system, each once, in lexicographic order.
pub fn sorted_distinct_goods(markets: &Vec<MarketEntry>) -> (r: Vec<String>)
    ensures
        strs_view(r@) == sorted_goods(markets@),
{
    let goods = distinct_goods(markets);
    let mut r: Vec<String> = Vec::new();
    let mut i: usize = 0;
    proof {
        assert(strs_view(r@) =~= Seq::<Seq<char>>::empty());
        lemma_dedup_distinct(all_goods(markets@));
    }
    while i < goods.len()
        invariant
            strs_view(goods@) == goods_traded(markets@),
            forall|a: int, b: int| 0 <= a < b < strs_view(goods@).len() ==> strs_view(goods@)[a] != strs_view(goods@)[b],
            i <= goods@.len(),
            strictly_sorted(strs_view(r@)),
            forall|x: Seq<char>| #[trigger] strs_view(r@).contains(x) <==> strs_view(goods@).take(i as int).contains(x),
        decreases goods@.len() - i,
    {
        let ghost gs = strs_view(goods@);
        proof {
            assert(gs[i as int] == goods@[i as int]@);
            let t0 = gs.take(i as int);
            if strs_view(r@).contains(gs[i as int]) {
                let k = choose|k: int| 0 <= k < t0.len() && t0[k] == gs[i as int];
                assert(gs[k] == gs[i as int]);
            }
        }
        insert_sorted(&mut r, goods[i].clone());
        proof {
            let t1 = gs.take(i + 1);
            let t0 = gs.take(i as int);
            assert forall|x: Seq<char>| #[trigger] strs_view(r@).contains(x) <==> t1.contains(x) by {
                if t1.contains(x) {
                    let k = choose|k: int| 0 <= k < t1.len() && t1[k] == x;
                    if k < i {
                        assert(t0[k] == x);
                    }
                }
                if t0.contains(x) {
                    let k = choose|k: int| 0 <= k < t0.len() && t0[k] == x;
                    assert(t1[k] == x);
                }
                if x == gs[i as int] {
                    assert(t1[i as int] == x);
                }
            }
        }
        i += 1;
    }
    proof {
        let gs = strs_view(goods@);
        assert(gs.take(gs.len() as int) =~= gs);
        lemma_sorted_unique(strs_view(r@), sorted_goods(markets@));
    }
    r
}

proof fn lemma_dedup_distinct(s: Seq<Seq<char>>)
    ensures
        forall|a: int, b: int| 0 <= a < b < dedup(s).len() ==> dedup(s)[a] != dedup(s)[b],
    decreases s.len(),
{
    if s.len() > 0 {
        lemma_dedup_distinct(s.drop_last());
        let d = dedup(s.drop_last());
        if !d.contains(s.last()) {
            assert forall|a: int, b: int| 0 <= a < b < dedup(s).len() implies dedup(s)[a] != dedup(s)[b] by {
                if b == d.len() {
                    assert(dedup(s)[a] == d[a]);
                    if d[a] == s.last() {
                        assert(d.contains(s.last()));
                    }
                }
            }
        }
    }
}

} // verus!
