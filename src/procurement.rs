//! Deciding where and whether a ship for a role can be bought.
use vstd::prelude::*;
use crate::fleet::{JobAssignments, ShipBehaviour, ShipConfig, ShipInfo, find_ship, ship_named};
use crate::ledger::{
    CREDITS_PER_CARGO_UNIT, FUEL_RESERVATION, JUMPGATE_RESERVATION, Ledger, MAX_CREDITS, MAX_KEYS,
};
use vstd::string::StringExecFns;
use crate::models::has_str;

verus! {

/// The outcome of trying to buy the ship of one role.
#[derive(Clone, Debug)]
pub enum BuyShipResult {
    /// Buy at the shipyard with this index of the offers, with this ship present there.
    Buy { shipyard: usize, purchaser: String },
    FailedNeverPurchase,
    FailedLowCredits,
    FailedNoShipyards,
    /// No ship is at an affordable shipyard to make the purchase; where the role
    /// allows, the cheapest shipyard is named so a ship can be sent there.
    FailedNoPurchaser(Option<String>),
}

/// A shipyard selling the role's model, and its price.
#[derive(Clone, Debug)]
pub struct ShipyardOffer {
    pub waypoint: String,
    pub price: i64,
}

/// Credits set aside for a role's job: for logistics, 5000 per unit of the model's
/// cargo capacity; nothing otherwise.
pub open spec fn job_reservation(behaviour: ShipBehaviour, cargo_capacity: int) -> int {
    match behaviour {
        ShipBehaviour::Logistics(_) => CREDITS_PER_CARGO_UNIT * cargo_capacity,
        _ => 0,
    }
}

pub fn job_credit_reservation(behaviour: &ShipBehaviour, cargo_capacity: i64) -> (r: i64)
    requires
        0 <= cargo_capacity <= 100_000_000,
    ensures
        r == job_reservation(*behaviour, cargo_capacity as int),
{
    match behaviour {
        ShipBehaviour::Logistics(_) => CREDITS_PER_CARGO_UNIT * cargo_capacity,
        _ => 0,
    }
}

/// Offer `i` comes before offer `j` when sorted by price, ties kept in order.
pub open spec fn comes_before(offers: Seq<ShipyardOffer>, i: int, j: int) -> bool {
    offers[i].price < offers[j].price || (offers[i].price == offers[j].price && i < j)
}

/// Offer `i` is the cheapest (the first among equals).
pub open spec fn is_cheapest(offers: Seq<ShipyardOffer>, i: int) -> bool {
    &&& 0 <= i < offers.len()
    &&& forall|j: int| 0 <= j < offers.len() && j != i ==> #[trigger] comes_before(offers, i, j)
}

/// Ship `s` can buy at waypoint `wp`: it is there, not in transit, and is either a
/// static probe or the ship asking to purchase.
pub open spec fn can_purchase(s: ShipInfo, wp: Seq<char>, static_probes: Seq<String>, purchaser: Option<String>) -> bool {
    &&& s.waypoint@ == wp
    &&& !s.in_transit
    &&& (has_str(static_probes, s.symbol@) || (purchaser is Some && purchaser->0@ == s.symbol@))
}

/// Some ship can buy at `wp`.
pub open spec fn has_purchaser(ships: Seq<ShipInfo>, wp: Seq<char>, static_probes: Seq<String>, purchaser: Option<String>) -> bool {
    exists|k: int| 0 <= k < ships.len() && can_purchase(#[trigger] ships[k], wp, static_probes, purchaser)
}

/// Offer `i` can be taken: it is affordable with the job's reservation and a
/// ship is there to buy.
pub open spec fn takeable(offers: Seq<ShipyardOffer>, i: int, available: int, reservation: int, ships: Seq<ShipInfo>, static_probes: Seq<String>, purchaser: Option<String>) -> bool {
    available >= offers[i].price + reservation && has_purchaser(ships, offers[i].waypoint@, static_probes, purchaser)
}

/// Decides the purchase of the ship for `job`, given the shipyards selling its model,
/// the credits available, what the job would reserve, the ships and where they are,
/// the ships that probe a single waypoint, and the ship asking to purchase, if any.
/// Shipyards are tried cheapest first while affordable; with `require_cheapest`
/// only the cheapest is tried.
pub fn try_buy_ship(
    job: &ShipConfig,
    offers: &Vec<ShipyardOffer>,
    available_credits: i64,
    reservation: i64,
    ships: &Vec<ShipInfo>,
    static_probes: &Vec<String>,
    purchaser: &Option<String>,
) -> (r: BuyShipResult)
    requires
        forall|i: int| 0 <= i < offers@.len() ==> 0 <= (#[trigger] offers@[i]).price <= MAX_CREDITS,
        0 <= reservation <= MAX_CREDITS,
    ensures
        job.purchase_criteria.never_purchase ==> r is FailedNeverPurchase,
        !job.purchase_criteria.never_purchase && offers@.len() == 0 ==> r is FailedNoShipyards,
        !job.purchase_criteria.never_purchase && offers@.len() > 0 ==> match r {
            BuyShipResult::Buy { shipyard, purchaser: p } => {
                &&& shipyard < offers@.len()
                &&& takeable(offers@, shipyard as int, available_credits as int, reservation as int, ships@, static_probes@, *purchaser)
                &&& exists|k: int| 0 <= k < ships@.len() && ships@[k].symbol@ == p@
                    && can_purchase(#[trigger] ships@[k], offers@[shipyard as int].waypoint@, static_probes@, *purchaser)
                &&& if job.purchase_criteria.require_cheapest {
                    is_cheapest(offers@, shipyard as int)
                } else {
                    forall|j: int| 0 <= j < offers@.len() && j != shipyard
                        && takeable(offers@, j, available_credits as int, reservation as int, ships@, static_probes@, *purchaser)
                        ==> #[trigger] comes_before(offers@, shipyard as int, j)
                }
            },
            BuyShipResult::FailedLowCredits => {
                &&& forall|c: int| #[trigger] is_cheapest(offers@, c) ==> available_credits < offers@[c].price + reservation
            },
            BuyShipResult::FailedNoPurchaser(wp) => {
                &&& forall|c: int| #[trigger] is_cheapest(offers@, c) ==> {
                    &&& available_credits >= offers@[c].price + reservation
                    &&& !has_purchaser(ships@, offers@[c].waypoint@, static_probes@, *purchaser)
                    &&& if job.purchase_criteria.allow_logistic_task {
                        wp is Some && wp->0@ == offers@[c].waypoint@
                    } else {
                        wp is None
                    }
                }
                &&& !job.purchase_criteria.require_cheapest ==> forall|j: int| 0 <= j < offers@.len()
                    ==> !(#[trigger] takeable(offers@, j, available_credits as int, reservation as int, ships@, static_probes@, *purchaser))
            },
            _ => false,
        },
{
    if job.purchase_criteria.never_purchase {
        return BuyShipResult::FailedNeverPurchase;
    }
    if offers.len() == 0 {
        return BuyShipResult::FailedNoShipyards;
    }
    let cheapest = cheapest_offer(offers);
    let can_afford_cheapest = available_credits >= offers[cheapest].price + reservation;
    if job.purchase_criteria.require_cheapest {
        if can_afford_cheapest {
            match find_purchaser(ships, &offers[cheapest].waypoint, static_probes, purchaser) {
                Some(k) => {
                    return BuyShipResult::Buy { shipyard: cheapest, purchaser: ships[k].symbol.clone() };
                },
                None => {},
            }
        }
    } else {
        let mut best: Option<(usize, usize)> = None;
        let mut i: usize = 0;
        while i < offers.len()
            invariant
                forall|x: int| 0 <= x < offers@.len() ==> 0 <= (#[trigger] offers@[x]).price <= MAX_CREDITS,
                0 <= reservation <= MAX_CREDITS,
                i <= offers@.len(),
                match best {
                    Some((b, k)) => {
                        &&& b < i
                        &&& k < ships@.len()
                        &&& takeable(offers@, b as int, available_credits as int, reservation as int, ships@, static_probes@, *purchaser)
                        &&& can_purchase(ships@[k as int], offers@[b as int].waypoint@, static_probes@, *purchaser)
                        &&& forall|j: int| 0 <= j < i && j != b
                            && takeable(offers@, j, available_credits as int, reservation as int, ships@, static_probes@, *purchaser)
                            ==> #[trigger] comes_before(offers@, b as int, j)
                    },
                    None => forall|j: int| 0 <= j < i
                        ==> !(#[trigger] takeable(offers@, j, available_credits as int, reservation as int, ships@, static_probes@, *purchaser)),
                },
            decreases offers@.len() - i,
        {
            let ghost prev = best;
            if available_credits >= offers[i].price + reservation {
                let better = match best {
                    Some((b, _k)) => offers[i].price < offers[b].price,
                    None => true,
                };
                if better {
                    match find_purchaser(ships, &offers[i].waypoint, static_probes, purchaser) {
                        Some(k) => {
                            best = Some((i, k));
                        },
                        None => {},
                    }
                }
            }
            proof {
                match best {
                    Some((b, k)) => {
                        assert forall|j: int| 0 <= j < i + 1 && j != b
                            && takeable(offers@, j, available_credits as int, reservation as int, ships@, static_probes@, *purchaser)
                            implies #[trigger] comes_before(offers@, b as int, j) by {
                            match prev {
                                Some((pb, pk)) => {
                                    if j != pb as int && j < i {
                                        assert(comes_before(offers@, pb as int, j));
                                    }
                                },
                                None => {},
                            }
                        }
                    },
                    None => {},
                }
            }
            i += 1;
        }
        match best {
            Some((b, k)) => {
                return BuyShipResult::Buy { shipyard: b, purchaser: ships[k].symbol.clone() };
            },
            None => {},
        }
    }
    proof {
        assert forall|c: int| #[trigger] is_cheapest(offers@, c) implies c == cheapest as int by {
            if c != cheapest as int {
                assert(comes_before(offers@, c, cheapest as int));
                assert(comes_before(offers@, cheapest as int, c));
            }
        }
    }
    if !can_afford_cheapest {
        return BuyShipResult::FailedLowCredits;
    }
    proof {
        if !has_purchaser(ships@, offers@[cheapest as int].waypoint@, static_probes@, *purchaser) {
        } else {
            if !job.purchase_criteria.require_cheapest {
                assert(takeable(offers@, cheapest as int, available_credits as int, reservation as int, ships@, static_probes@, *purchaser));
            }
        }
    }
    if job.purchase_criteria.allow_logistic_task {
        BuyShipResult::FailedNoPurchaser(Some(offers[cheapest].waypoint.clone()))
    } else {
        BuyShipResult::FailedNoPurchaser(None)
    }
}

/// The index of the cheapest offer, the first among equals.
fn cheapest_offer(offers: &Vec<ShipyardOffer>) -> (r: usize)
    requires
        offers@.len() > 0,
    ensures
        is_cheapest(offers@, r as int),
{
    let mut best: usize = 0;
    let mut i: usize = 1;
    while i < offers.len()
        invariant
            1 <= i <= offers@.len(),
            best < i,
            forall|j: int| 0 <= j < i && j != best ==> #[trigger] comes_before(offers@, best as int, j),
        decreases offers@.len() - i,
    {
        let ghost prev = best;
        if offers[i].price < offers[best].price {
            best = i;
        }
        proof {
            assert forall|j: int| 0 <= j < i + 1 && j != best implies #[trigger] comes_before(offers@, best as int, j) by {
                if j != prev as int && j < i {
                    assert(comes_before(offers@, prev as int, j));
                }
            }
        }
        i += 1;
    }
    best
}

/// The first ship that can buy at `wp`.
fn find_purchaser(ships: &Vec<ShipInfo>, wp: &String, static_probes: &Vec<String>, purchaser: &Option<String>) -> (r: Option<usize>)
    ensures
        match r {
            Some(k) => k < ships@.len() && can_purchase(ships@[k as int], wp@, static_probes@, *purchaser),
            None => !has_purchaser(ships@, wp@, static_probes@, *purchaser),
        },
{
    let mut k: usize = 0;
    while k < ships.len()
        invariant
            k <= ships@.len(),
            forall|j: int| 0 <= j < k ==> !can_purchase(#[trigger] ships@[j], wp@, static_probes@, *purchaser),
        decreases ships@.len() - k,
    {
        let s = &ships[k];
        if s.waypoint == *wp && !s.in_transit {
            let is_static = crate::models::contains_str(static_probes, &s.symbol);
            let is_purchaser = match purchaser {
                Some(p) => *p == s.symbol,
                None => false,
            };
            if is_static || is_purchaser {
                return Some(k);
            }
        }
        k += 1;
    }
    None
}

/// Largest cargo capacity a ship is expected to have.
pub const MAX_CARGO_CAPACITY: i64 = 100_000_000;

/// Role `c` is a logistics role held by ship `s`, which reserves for its cargo.
pub open spec fn reserves_for_cargo(c: ShipConfig, a: JobAssignments, s: ShipInfo, ships: Seq<ShipInfo>) -> bool {
    &&& c.behaviour is Logistics
    &&& a.holds(c.id@, s.symbol@)
    &&& ship_named(ships, s.symbol@, s)
}

/// The ledger already has every key that the standing reservations use: fuel, jump
/// gate costs when `jumpgate_finished`, and each ship in a logistics role.
pub open spec fn reservation_keys_present(ledger: Ledger, configs: Seq<ShipConfig>, assignments: JobAssignments, ships: Seq<ShipInfo>, jumpgate_finished: bool) -> bool {
    &&& ledger.index_of("FUEL"@) is Some
    &&& jumpgate_finished ==> ledger.index_of("JUMPGATE_COSTS"@) is Some
    &&& forall|c: int, s: ShipInfo| 0 <= c < configs.len() && #[trigger] reserves_for_cargo(configs[c], assignments, s, ships)
        && s.symbol@ != "FUEL"@ && s.symbol@ != "JUMPGATE_COSTS"@
        ==> ledger.index_of(s.symbol@) is Some
}

/// The ledger has room for every key the standing reservations could add, or already
/// has them all.
pub open spec fn room_for_reservations(ledger: Ledger, configs: Seq<ShipConfig>, assignments: JobAssignments, ships: Seq<ShipInfo>, jumpgate_finished: bool) -> bool {
    ledger.entries@.len() + 2 + configs.len() <= MAX_KEYS
        || reservation_keys_present(ledger, configs, assignments, ships, jumpgate_finished)
}

/// Sets the standing reservations: 10 000 for fuel; 500 000 for jump gate costs when
/// `jumpgate_finished`; for each ship in a logistics role, 5000 times its cargo capacity.
pub fn refresh_reservations(ledger: &mut Ledger, configs: &Vec<ShipConfig>, assignments: &JobAssignments, ships: &Vec<ShipInfo>, jumpgate_finished: bool)
    requires
        old(ledger).wf(),
        assignments.wf(),
        room_for_reservations(*old(ledger), configs@, *assignments, ships@, jumpgate_finished),
        forall|i: int| 0 <= i < ships@.len() ==> 0 <= #[trigger] ships@[i].cargo_capacity <= MAX_CARGO_CAPACITY,
    ensures
        final(ledger).wf(),
        reservation_keys_present(*final(ledger), configs@, *assignments, ships@, jumpgate_finished),
        reservation_keys_present(*old(ledger), configs@, *assignments, ships@, jumpgate_finished)
            ==> final(ledger).entries@.len() == old(ledger).entries@.len(),
        final(ledger).credits == old(ledger).credits,
        final(ledger).reserved_for("FUEL"@) == FUEL_RESERVATION,
        jumpgate_finished ==> final(ledger).reserved_for("JUMPGATE_COSTS"@) == JUMPGATE_RESERVATION,
        forall|c: int, s: ShipInfo| 0 <= c < configs@.len() && #[trigger] reserves_for_cargo(configs@[c], *assignments, s, ships@)
            && s.symbol@ != "FUEL"@ && s.symbol@ != "JUMPGATE_COSTS"@
            ==> final(ledger).reserved_for(s.symbol@) == CREDITS_PER_CARGO_UNIT * s.cargo_capacity,
{
    let ghost present = reservation_keys_present(*old(ledger), configs@, *assignments, ships@, jumpgate_finished);
    let fuel = String::from_str("FUEL");
    let gate = String::from_str("JUMPGATE_COSTS");
    ledger.reserve_credits(&fuel, FUEL_RESERVATION);
    proof {
        reveal_strlit("FUEL");
        reveal_strlit("JUMPGATE_COSTS");
        assert("FUEL"@[0] != "JUMPGATE_COSTS"@[0]);
    }
    if jumpgate_finished {
        ledger.reserve_credits(&gate, JUMPGATE_RESERVATION);
    }
    let ghost base = *ledger;
    let mut c: usize = 0;
    while c < configs.len()
        invariant
            ledger.wf(),
            assignments.wf(),
            ledger.credits == old(ledger).credits,
            ledger.entries@.len() <= old(ledger).entries@.len() + 2 + c,
            present == reservation_keys_present(*old(ledger), configs@, *assignments, ships@, jumpgate_finished),
            present || old(ledger).entries@.len() + 2 + configs@.len() <= MAX_KEYS,
            present ==> ledger.entries@.len() == old(ledger).entries@.len(),
            forall|k: Seq<char>| #[trigger] old(ledger).index_of(k) is Some ==> ledger.index_of(k) is Some,
            ledger.index_of("FUEL"@) is Some,
            jumpgate_finished ==> ledger.index_of("JUMPGATE_COSTS"@) is Some,
            forall|cc: int, s: ShipInfo| 0 <= cc < c && #[trigger] reserves_for_cargo(configs@[cc], *assignments, s, ships@)
                && s.symbol@ != "FUEL"@ && s.symbol@ != "JUMPGATE_COSTS"@
                ==> ledger.index_of(s.symbol@) is Some,
            forall|i: int| 0 <= i < ships@.len() ==> 0 <= #[trigger] ships@[i].cargo_capacity <= MAX_CARGO_CAPACITY,
            fuel@ == "FUEL"@,
            gate@ == "JUMPGATE_COSTS"@,
            c <= configs@.len(),
            ledger.reserved_for("FUEL"@) == FUEL_RESERVATION,
            jumpgate_finished ==> ledger.reserved_for("JUMPGATE_COSTS"@) == JUMPGATE_RESERVATION,
            forall|cc: int, s: ShipInfo| 0 <= cc < c && #[trigger] reserves_for_cargo(configs@[cc], *assignments, s, ships@)
                && s.symbol@ != "FUEL"@ && s.symbol@ != "JUMPGATE_COSTS"@
                ==> ledger.reserved_for(s.symbol@) == CREDITS_PER_CARGO_UNIT * s.cargo_capacity,
        decreases configs@.len() - c,
    {
        let ghost before = *ledger;
        if let ShipBehaviour::Logistics(_) = &configs[c].behaviour {
            if let Some(symbol) = assignments.ship_of(&configs[c].id) {
                if let Some(ship) = find_ship(ships, &symbol) {
                    if ship.symbol != fuel && ship.symbol != gate {
                        proof {
                            let k = choose|k: int| 0 <= k < ships@.len() && ships@[k] == *ship
                                && forall|j: int| 0 <= j < k ==> (#[trigger] ships@[j]).symbol@ != symbol@;
                            assert(ships@[k].cargo_capacity == ship.cargo_capacity);
                            if present {
                                assert(reserves_for_cargo(configs@[c as int], *assignments, *ship, ships@));
                                assert(old(ledger).index_of(ship.symbol@) is Some);
                            }
                        }
                        ledger.reserve_credits(&ship.symbol, CREDITS_PER_CARGO_UNIT * ship.cargo_capacity);
                        proof {
                            assert(ship_named(ships@, ship.symbol@, *ship));
                            assert forall|cc: int, s: ShipInfo| 0 <= cc < c + 1 && #[trigger] reserves_for_cargo(configs@[cc], *assignments, s, ships@)
                                && s.symbol@ != "FUEL"@ && s.symbol@ != "JUMPGATE_COSTS"@
                                implies ledger.reserved_for(s.symbol@) == CREDITS_PER_CARGO_UNIT * s.cargo_capacity by {
                                if s.symbol@ == ship.symbol@ {
                                    let k1 = choose|k: int| 0 <= k < ships@.len() && ships@[k] == s && s.symbol@ == s.symbol@
                                        && forall|j: int| 0 <= j < k ==> (#[trigger] ships@[j]).symbol@ != s.symbol@;
                                    let k2 = choose|k: int| 0 <= k < ships@.len() && ships@[k] == *ship && ship.symbol@ == ship.symbol@
                                        && forall|j: int| 0 <= j < k ==> (#[trigger] ships@[j]).symbol@ != ship.symbol@;
                                    if k1 < k2 {
                                        assert(ships@[k1].symbol@ != ship.symbol@);
                                    } else if k2 < k1 {
                                        assert(ships@[k2].symbol@ != s.symbol@);
                                    }
                                }
                            }
                        }
                    }
                }
            }
        }
        proof {
            assert forall|cc: int, s: ShipInfo| 0 <= cc < c + 1 && #[trigger] reserves_for_cargo(configs@[cc], *assignments, s, ships@)
                && s.symbol@ != "FUEL"@ && s.symbol@ != "JUMPGATE_COSTS"@
                implies ledger.index_of(s.symbol@) is Some by {
                if cc == c as int {
                    assert(assignments.holds(configs@[cc].id@, s.symbol@));
                    assert(assignments.spec_job_assigned(configs@[cc].id@));
                    assert(before.index_of(s.symbol@) is Some || ledger.index_of(s.symbol@) is Some);
                }
            }
            assert forall|cc: int, s: ShipInfo| 0 <= cc < c + 1 && #[trigger] reserves_for_cargo(configs@[cc], *assignments, s, ships@)
                && s.symbol@ != "FUEL"@ && s.symbol@ != "JUMPGATE_COSTS"@
                implies ledger.reserved_for(s.symbol@) == CREDITS_PER_CARGO_UNIT * s.cargo_capacity by {
                if cc == c as int {
                    assert(assignments.holds(configs@[cc].id@, s.symbol@));
                    assert(assignments.spec_job_assigned(configs@[cc].id@));
                }
            }
        }
        c += 1;
    }
}

/// What a round of ship buying does after trying the role it is on.
#[derive(Clone, Debug)]
pub enum BuyRoundStep {
    /// The ship was bought: go on with the next unfilled role.
    TryNextRole,
    /// Stop the round; where no ship was there to buy, name the shipyard a ship
    /// should be sent to.
    Stop(Option<String>),
}

/// A round tries the unfilled roles in order (`fleet::next_unfilled_role`) and stops
/// at the first role it could not buy a ship for, passing on the shipyard named for
/// want of a purchaser.
pub fn after_buy_attempt(result: &BuyShipResult) -> (r: BuyRoundStep)
    ensures
        match result {
            BuyShipResult::Buy { .. } => r is TryNextRole,
            BuyShipResult::FailedNoPurchaser(wp) => match r {
                BuyRoundStep::Stop(named) => match (wp, named) {
                    (Some(a), Some(b)) => a@ == b@,
                    (None, None) => true,
                    _ => false,
                },
                _ => false,
            },
            _ => r matches BuyRoundStep::Stop(None),
        },
{
    match result {
        BuyShipResult::Buy { .. } => BuyRoundStep::TryNextRole,
        BuyShipResult::FailedNoPurchaser(wp) => BuyRoundStep::Stop(wp.clone()),
        _ => BuyRoundStep::Stop(None),
    }
}

/// A purchase that `try_buy_ship` decides on keeps every reservation covered: the
/// offer it takes is affordable together with the job's reservation, so once the
/// price is paid and the job reserved under the new ship's key, what is reserved
/// does not exceed the credits left.
pub proof fn lemma_bought_ship_keeps_credits_covered(
    before: Ledger,
    after: Ledger,
    offers: Seq<ShipyardOffer>,
    shipyard: int,
    reservation: int,
    ships: Seq<ShipInfo>,
    static_probes: Seq<String>,
    purchaser: Option<String>,
    key: Seq<char>,
)
    requires
        before.wf(),
        0 <= shipyard < offers.len(),
        0 <= reservation,
        takeable(offers, shipyard, before.spec_available(), reservation, ships, static_probes, purchaser),
        before.index_of(key) is None,
        after.credits == before.credits - offers[shipyard].price,
        after.spec_effective_reserved() == before.spec_effective_reserved() + reservation,
    ensures
        after.spec_effective_reserved() <= after.credits,
{
    crate::ledger::lemma_purchase_keeps_reservations_covered(before, after, key, offers[shipyard].price as int, reservation);
}

} // verus!
