//! The fleet supervisor's state: the agent's era, its credit ledger, the role
//! configuration and assignments, the ships, and the exploration claims. Every
//! change to the fleet goes through it.
use vstd::prelude::*;
use crate::era::{AgentEra, AgentState, check_era_advance, eras_entered, settled_era};
use crate::exploration::{Reservations, TargetGraph, is_candidate, is_closest_candidate};
use crate::fleet::{
    JobAssignments, ShipBehaviour, ShipConfig, ShipInfo, find_ship, is_probe_entry, is_saved_pair, pair_valid,
    is_static_watch, no_free_role, probed_waypoints, ship_named, ships_have,
    statically_probed_waypoints,
};
use crate::ledger::{CREDITS_PER_CARGO_UNIT, Ledger, MAX_CREDITS, MAX_KEYS};
use crate::procurement::{
    MAX_CARGO_CAPACITY, refresh_reservations, reservation_keys_present, reserves_for_cargo,
};

verus! {

/// The supervisor of one agent's fleet.
pub struct AgentController {
    pub callsign: String,
    pub starting_system: String,
    pub state: AgentState,
    pub ledger: Ledger,
    pub ship_config: Vec<ShipConfig>,
    pub job_assignments: JobAssignments,
    pub ships: Vec<ShipInfo>,
    pub probe_jumpgate_reservations: Reservations,
    pub explorer_reservations: Reservations,
}

/// Cargo capacities are within bounds.
pub open spec fn ships_in_range(ships: Seq<ShipInfo>) -> bool {
    forall|i: int| 0 <= i < ships.len() ==> 0 <= #[trigger] ships[i].cargo_capacity <= MAX_CARGO_CAPACITY
}

impl AgentController {
    pub open spec fn wf(self) -> bool {
        &&& self.ledger.wf()
        &&& self.job_assignments.wf()
        &&& self.probe_jumpgate_reservations.wf()
        &&& self.explorer_reservations.wf()
        &&& ships_in_range(self.ships@)
    }

    /// A supervisor for an agent with `credits`, its ships, and its saved state, role
    /// assignments and exploration claims (pairs of ship and target).
    pub fn new(
        callsign: &String,
        starting_system: &String,
        credits: i64,
        ships: Vec<ShipInfo>,
        state: AgentState,
        assignments: &Vec<(String, String)>,
        probe_claims: &Vec<(String, String)>,
        explorer_claims: &Vec<(String, String)>,
    ) -> (r: AgentController)
        requires
            -MAX_CREDITS <= credits <= MAX_CREDITS,
            ships_in_range(ships@),
        ensures
            r.wf(),
            r.callsign@ == callsign@,
            r.starting_system@ == starting_system@,
            r.state == state,
            r.ledger.credits == credits,
            r.ledger.entries@.len() == 0,
            r.ship_config@.len() == 0,
            r.ships@ == ships@,
            forall|i: int| 0 <= i < r.job_assignments.pairs@.len() ==> is_saved_pair(assignments@, #[trigger] r.job_assignments.pairs@[i]),
            forall|k: int| 0 <= k < assignments@.len() ==> r.job_assignments.spec_job_assigned((#[trigger] assignments@[k]).0@)
                || r.job_assignments.spec_ship_assigned(assignments@[k].1@),
            r.probe_jumpgate_reservations.restored_from(probe_claims@),
            r.explorer_reservations.restored_from(explorer_claims@),
    {
        AgentController {
            callsign: callsign.clone(),
            starting_system: starting_system.clone(),
            state,
            ledger: Ledger::new(credits),
            ship_config: Vec::new(),
            job_assignments: JobAssignments::from_pairs(assignments),
            ships,
            probe_jumpgate_reservations: Reservations::from_pairs(probe_claims),
            explorer_reservations: Reservations::from_pairs(explorer_claims),
        }
    }

    pub fn state(&self) -> (r: AgentState)
        ensures
            r == self.state,
    {
        self.state
    }

    pub fn starting_system(&self) -> (r: &String)
        ensures
            r@ == self.starting_system@,
    {
        &self.starting_system
    }

    pub fn num_ships(&self) -> (r: usize)
        ensures
            r == self.ships@.len(),
    {
        self.ships.len()
    }

    pub fn get_ship_config(&self) -> (r: &Vec<ShipConfig>)
        ensures
            r@ == self.ship_config@,
    {
        &self.ship_config
    }

    pub fn set_ship_config(&mut self, config: Vec<ShipConfig>)
        ensures
            final(self).ship_config@ == config@,
            final(self).ledger == old(self).ledger,
            final(self).job_assignments == old(self).job_assignments,
            final(self).ships == old(self).ships,
            final(self).state == old(self).state,
            final(self).probe_jumpgate_reservations == old(self).probe_jumpgate_reservations,
            final(self).explorer_reservations == old(self).explorer_reservations,
    {
        self.ship_config = config;
    }

    /// Records the agent's credits as the game reports them.
    pub fn update_agent(&mut self, credits: i64)
        requires
            old(self).wf(),
            -MAX_CREDITS <= credits <= MAX_CREDITS,
        ensures
            final(self).wf(),
            final(self).ledger.credits == credits,
            final(self).ledger.entries@ == old(self).ledger.entries@,
    {
        self.ledger.set_credits(credits);
    }

    pub fn update_era(&mut self, era: AgentEra)
        ensures
            final(self).state.era == era,
    {
        self.state.era = era;
    }

    /// Advances the era as far as the available credits allow, or to the configured
    /// override. Returns each era entered, to be saved in turn.
    pub fn check_era_advance(&mut self, era_override: Option<AgentEra>) -> (r: Vec<AgentEra>)
        requires
            old(self).wf(),
        ensures
            final(self).wf(),
            final(self).ledger == old(self).ledger,
            match era_override {
                Some(o) => {
                    &&& final(self).state.era == o
                    &&& r@ == if o == old(self).state.era { Seq::<AgentEra>::empty() } else { seq![o] }
                },
                None => {
                    &&& final(self).state.era == settled_era(old(self).state.era, old(self).ledger.spec_available())
                    &&& r@ == eras_entered(old(self).state.era, old(self).ledger.spec_available())
                    &&& final(self).state.era.order() >= old(self).state.era.order()
                },
            },
            r@.len() == 0 <==> final(self).state.era == old(self).state.era,
    {
        let available = self.ledger.available_credits();
        check_era_advance(&mut self.state, era_override, available)
    }

    pub fn ship_assigned(&self, ship: &String) -> (r: bool)
        ensures
            r == self.job_assignments.spec_ship_assigned(ship@),
    {
        self.job_assignments.ship_assigned(ship)
    }

    pub fn job_assigned(&self, job: &String) -> (r: bool)
        ensures
            r == self.job_assignments.spec_job_assigned(job@),
    {
        self.job_assignments.job_assigned(job)
    }

    /// Reserves credits for the job of `ship` in role `job`: 5000 per unit of cargo
    /// capacity for a logistics role, nothing otherwise.
    pub fn reserve_credits_for_job(&mut self, job: &ShipConfig, ship: &String)
        requires
            old(self).wf(),
            old(self).ledger.index_of(ship@) is Some || old(self).ledger.entries@.len() < MAX_KEYS,
        ensures
            final(self).wf(),
            final(self).job_assignments == old(self).job_assignments,
            final(self).ships == old(self).ships,
            job_reserved(old(self).ledger, final(self).ledger, old(self).ships@, *job, ship@),
    {
        reserve_job(&mut self.ledger, &self.ships, job, ship);
    }

    /// Assigns `ship` to the first free role needing its model, and reserves credits
    /// for that role's job. Returns whether a role was found.
    pub fn try_assign_ship(&mut self, ship: &String) -> (r: bool)
        requires
            old(self).wf(),
            !old(self).job_assignments.spec_ship_assigned(ship@),
            old(self).ledger.index_of(ship@) is Some || old(self).ledger.entries@.len() < MAX_KEYS,
        ensures
            final(self).wf(),
            final(self).ship_config@ == old(self).ship_config@,
            final(self).ships@ == old(self).ships@,
            r ==> exists|k: int, t: ShipInfo| #[trigger] took_role(*old(self), *final(self), *ship, k, t),
            !r ==> {
                &&& final(self).job_assignments.pairs@ == old(self).job_assignments.pairs@
                &&& final(self).ledger == old(self).ledger
                &&& forall|t: ShipInfo| #[trigger] ship_named(old(self).ships@, ship@, t)
                    ==> no_free_role(old(self).job_assignments, old(self).ship_config@, t.model@)
            },
    {
        let found = find_ship(&self.ships, ship);
        let model = match found {
            Some(s) => s.model.clone(),
            None => {
                proof {
                    assert forall|t: ShipInfo| #[trigger] ship_named(self.ships@, ship@, t)
                        implies no_free_role(self.job_assignments, self.ship_config@, t.model@) by {
                        let k = choose|k: int| 0 <= k < self.ships@.len() && self.ships@[k] == t && t.symbol@ == ship@
                            && forall|j: int| 0 <= j < k ==> (#[trigger] self.ships@[j]).symbol@ != ship@;
                        assert(ships_have(self.ships@, ship@));
                    }
                }
                return false;
            },
        };
        let ghost named = *found->0;
        proof {
            let k = choose|k: int| 0 <= k < self.ships@.len() && self.ships@[k].model@ == model@ && self.ships@[k].symbol@ == ship@
                && forall|j: int| 0 <= j < k ==> (#[trigger] self.ships@[j]).symbol@ != ship@;
            assert forall|t: ShipInfo| ship_named(self.ships@, ship@, t) implies t.model@ == model@ by {
                let k2 = choose|k2: int| 0 <= k2 < self.ships@.len() && self.ships@[k2] == t && t.symbol@ == ship@
                    && forall|j: int| 0 <= j < k2 ==> (#[trigger] self.ships@[j]).symbol@ != ship@;
                if k2 < k {
                    assert(self.ships@[k2].symbol@ != ship@);
                } else if k < k2 {
                    assert(self.ships@[k].symbol@ != ship@);
                }
            }
        }
        match self.job_assignments.try_assign_ship(ship, &model, &self.ship_config) {
            Some(k) => {
                reserve_job(&mut self.ledger, &self.ships, &self.ship_config[k], ship);
                proof {
                    assert(ship_named(self.ships@, ship@, named));
                    assert(took_role(*old(self), *self, *ship, k as int, named));
                }
                true
            },
            None => false,
        }
    }
}

impl AgentController {
    /// Installs a newly generated role configuration: drops assignments whose role or
    /// ship is gone, assigns unassigned ships to free roles, and refreshes the standing
    /// reservations (fuel, jump gate costs when `jumpgate_finished`, logistics jobs).
    pub fn refresh_ship_config(&mut self, config: Vec<ShipConfig>, jumpgate_finished: bool)
        requires
            old(self).wf(),
            old(self).ledger.entries@.len() + 2 + config@.len() <= MAX_KEYS || (
                old(self).job_assignments.settled(config@, old(self).ships@)
                && reservation_keys_present(old(self).ledger, config@, old(self).job_assignments, old(self).ships@, jumpgate_finished)
            ),
        ensures
            final(self).wf(),
            final(self).ship_config@ == config@,
            final(self).ships@ == old(self).ships@,
            reservation_keys_present(final(self).ledger, config@, final(self).job_assignments, old(self).ships@, jumpgate_finished),
            final(self).ledger.credits == old(self).ledger.credits,
            final(self).job_assignments.settled(config@, old(self).ships@),
            old(self).job_assignments.settled(config@, old(self).ships@)
                ==> final(self).job_assignments.pairs@ == old(self).job_assignments.pairs@,
            forall|i: int| 0 <= i < old(self).job_assignments.pairs@.len()
                && pair_valid(#[trigger] old(self).job_assignments.pairs@[i], config@, old(self).ships@)
                ==> final(self).job_assignments.holds(old(self).job_assignments.pairs@[i].0@, old(self).job_assignments.pairs@[i].1@),
            final(self).ledger.reserved_for("FUEL"@) == crate::ledger::FUEL_RESERVATION,
            jumpgate_finished ==> final(self).ledger.reserved_for("JUMPGATE_COSTS"@) == crate::ledger::JUMPGATE_RESERVATION,
            forall|c: int, s: ShipInfo| 0 <= c < config@.len()
                && #[trigger] reserves_for_cargo(config@[c], final(self).job_assignments, s, old(self).ships@)
                && s.symbol@ != "FUEL"@ && s.symbol@ != "JUMPGATE_COSTS"@
                ==> final(self).ledger.reserved_for(s.symbol@) == CREDITS_PER_CARGO_UNIT * s.cargo_capacity,
    {
        self.ship_config = config;
        let ghost before = self.job_assignments;
        self.job_assignments.refresh_assignments(&self.ship_config, &self.ships);
        proof {
            if before.settled(self.ship_config@, self.ships@) {
                assert forall|c: int, t: ShipInfo| #[trigger] reserves_for_cargo(self.ship_config@[c], self.job_assignments, t, self.ships@)
                    == reserves_for_cargo(self.ship_config@[c], before, t, self.ships@) by {}
            }
        }
        refresh_reservations(&mut self.ledger, &self.ship_config, &self.job_assignments, &self.ships, jumpgate_finished);
    }

    /// The ships in probe roles, each with the waypoints its role visits.
    pub fn probed_waypoints(&self) -> (r: Vec<(String, Vec<String>)>)
        requires
            self.wf(),
        ensures
            forall|i: int| 0 <= i < r@.len() ==> is_probe_entry(self.ship_config@, self.job_assignments, #[trigger] r@[i]),
            forall|c: int, s: Seq<char>| 0 <= c < self.ship_config@.len() && self.ship_config@[c].behaviour is Probe
                && #[trigger] self.job_assignments.holds(self.ship_config@[c].id@, s) ==> exists|i: int|
                    0 <= i < r@.len() && r@[i].0@ == s && r@[i].1@ == self.ship_config@[c].behaviour->Probe_0@,
    {
        probed_waypoints(&self.ship_config, &self.job_assignments)
    }

    /// The waypoints watched by ships that do not move, with those ships.
    pub fn statically_probed_waypoints(&self) -> (r: Vec<(String, String)>)
        requires
            self.wf(),
        ensures
            forall|i: int| 0 <= i < r@.len() ==> is_static_watch(self.ship_config@, self.job_assignments, self.ships@, self.starting_system@, #[trigger] r@[i]),
    {
        statically_probed_waypoints(&self.ship_config, &self.job_assignments, &self.ships, &self.starting_system)
    }

    /// The jump gate `ship` is to chart; see `Reservations::get_probe_jumpgate_reservation`.
    pub fn get_probe_jumpgate_reservation(&mut self, ship: &String, start: usize, gates: &TargetGraph) -> (r: Option<String>)
        requires
            old(self).wf(),
            gates.wf(),
            start < gates.adj@.len(),
        ensures
            final(self).wf(),
            match old(self).probe_jumpgate_reservations.claim_of(ship@) {
                Some(t) => r is Some && r->0@ == t
                    && final(self).probe_jumpgate_reservations == old(self).probe_jumpgate_reservations,
                None => match r {
                    Some(sym) => {
                        &&& exists|k: int| #[trigger] is_closest_candidate(*gates, old(self).probe_jumpgate_reservations, start as int, k, false, false)
                            && gates.symbols@[k]@ == sym@
                        &&& final(self).probe_jumpgate_reservations.claim_of(ship@) == Some(sym@)
                    },
                    None => {
                        &&& forall|k: int| !is_candidate(*gates, old(self).probe_jumpgate_reservations, start as int, k, false, false)
                        &&& final(self).probe_jumpgate_reservations == old(self).probe_jumpgate_reservations
                    },
                },
            },
    {
        self.probe_jumpgate_reservations.get_probe_jumpgate_reservation(ship, start, gates)
    }

    /// Drops the jump gate claimed by `ship`, once charted.
    pub fn clear_probe_jumpgate_reservation(&mut self, ship: &String)
        requires
            old(self).wf(),
        ensures
            final(self).wf(),
            final(self).probe_jumpgate_reservations.claim_of(ship@) is None,
            forall|s: Seq<char>| s != ship@ ==> #[trigger] final(self).probe_jumpgate_reservations.claim_of(s)
                == old(self).probe_jumpgate_reservations.claim_of(s),
    {
        self.probe_jumpgate_reservations.clear(ship);
    }

    /// The starter system `ship` is to explore; see `Reservations::get_explorer_reservation`.
    pub fn get_explorer_reservation(&mut self, ship: &String, start: usize, systems: &TargetGraph) -> (r: Option<String>)
        requires
            old(self).wf(),
            systems.wf(),
            start < systems.adj@.len(),
        ensures
            final(self).wf(),
            match old(self).explorer_reservations.claim_of(ship@) {
                Some(t) => r is Some && r->0@ == t
                    && final(self).explorer_reservations == old(self).explorer_reservations,
                None => match r {
                    Some(sym) => {
                        &&& exists|k: int| #[trigger] is_closest_candidate(*systems, old(self).explorer_reservations, start as int, k, true, true)
                            && systems.symbols@[k]@ == sym@
                        &&& final(self).explorer_reservations.claim_of(ship@) == Some(sym@)
                    },
                    None => {
                        &&& forall|k: int| !is_candidate(*systems, old(self).explorer_reservations, start as int, k, true, true)
                        &&& final(self).explorer_reservations == old(self).explorer_reservations
                    },
                },
            },
    {
        self.explorer_reservations.get_explorer_reservation(ship, start, systems)
    }
}

/// `after` is `before` with `ship` (named `t` among the ships) given role `k`: the
/// first free role needing its model. The pair is added to the assignments and the
/// role's job reserved for.
pub open spec fn took_role(before: AgentController, after: AgentController, ship: String, k: int, t: ShipInfo) -> bool {
    &&& ship_named(before.ships@, ship@, t)
    &&& 0 <= k < before.ship_config@.len()
    &&& before.ship_config@[k].ship_model@ == t.model@
    &&& !before.job_assignments.spec_job_assigned(before.ship_config@[k].id@)
    &&& forall|j: int| 0 <= j < k ==> !((#[trigger] before.ship_config@[j]).ship_model@ == t.model@
        && !before.job_assignments.spec_job_assigned(before.ship_config@[j].id@))
    &&& after.job_assignments.pairs@ == before.job_assignments.pairs@.push((before.ship_config@[k].id, ship))
    &&& job_reserved(before.ledger, after.ledger, before.ships@, before.ship_config@[k], ship@)
}

/// The ledger after reserving for the job of `ship` in role `job`: for a logistics
/// role whose ship is known, 5000 per unit of its cargo capacity; otherwise unchanged.
pub open spec fn job_reserved(before: Ledger, after: Ledger, ships: Seq<ShipInfo>, job: ShipConfig, ship: Seq<char>) -> bool {
    &&& after.credits == before.credits
    &&& if job.behaviour is Logistics && ships_have(ships, ship) {
        &&& forall|s: ShipInfo| #[trigger] ship_named(ships, ship, s) ==> after.reserved_for(ship) == CREDITS_PER_CARGO_UNIT * s.cargo_capacity
        &&& forall|k: Seq<char>| k != ship ==> #[trigger] after.reserved_for(k) == before.reserved_for(k)
    } else {
        after == before
    }
}

fn reserve_job(ledger: &mut Ledger, ships: &Vec<ShipInfo>, job: &ShipConfig, ship: &String)
    requires
        old(ledger).wf(),
        ships_in_range(ships@),
        old(ledger).index_of(ship@) is Some || old(ledger).entries@.len() < MAX_KEYS,
    ensures
        final(ledger).wf(),
        job_reserved(*old(ledger), *final(ledger), ships@, *job, ship@),
{
    if let ShipBehaviour::Logistics(_) = &job.behaviour {
        if let Some(s) = find_ship(ships, ship) {
            proof {
                let k = choose|k: int| 0 <= k < ships@.len() && ships@[k] == *s
                    && forall|j: int| 0 <= j < k ==> (#[trigger] ships@[j]).symbol@ != ship@;
                assert(ships@[k].cargo_capacity == s.cargo_capacity);
                assert(ship_named(ships@, ship@, *s));
                assert forall|t: ShipInfo| #[trigger] ship_named(ships@, ship@, t) implies t == *s by {
                    let k2 = choose|k2: int| 0 <= k2 < ships@.len() && ships@[k2] == t && t.symbol@ == ship@
                        && forall|j: int| 0 <= j < k2 ==> (#[trigger] ships@[j]).symbol@ != ship@;
                    if k2 < k {
                        assert(ships@[k2].symbol@ != ship@);
                    } else if k < k2 {
                        assert(ships@[k].symbol@ != ship@);
                    }
                }
            }
            ledger.reserve_credits(ship, CREDITS_PER_CARGO_UNIT * s.cargo_capacity);
        }
    }
}

} // verus!
