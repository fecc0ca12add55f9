//! Ship roles and which ship fills which role.
use vstd::prelude::*;
use crate::models::LogisticsScriptConfig;

verus! {

/// What a ship in a role does.
#[derive(Clone, Debug)]
pub enum ShipBehaviour {
    Probe(Vec<String>),
    Logistics(LogisticsScriptConfig),
    SiphonDrone,
    SiphonShuttle,
    MiningDrone,
    MiningShuttle,
    MiningSurveyor,
    ConstructionHauler,
    JumpgateProbe,
    Explorer,
}

/// When and where a ship for a role may be bought.
#[derive(Clone, Debug)]
pub struct PurchaseCriteria {
    pub system_symbol: Option<String>,
    pub never_purchase: bool,
    pub require_cheapest: bool,
    pub allow_logistic_task: bool,
}

/// A role: its stable id, the ship model it needs, and its behaviour.
#[derive(Clone, Debug)]
pub struct ShipConfig {
    pub id: String,
    pub ship_model: String,
    pub behaviour: ShipBehaviour,
    pub purchase_criteria: PurchaseCriteria,
}

/// What the fleet logic reads of a ship.
#[derive(Clone, Debug)]
pub struct ShipInfo {
    pub symbol: String,
    pub model: String,
    pub waypoint: String,
    pub system: String,
    pub in_transit: bool,
    pub cargo_capacity: i64,
}

/// Role assignments: pairs of (role id, ship symbol). No role and no ship appears
/// twice, so the pairs read the same from either side.
pub struct JobAssignments {
    pub pairs: Vec<(String, String)>,
}

/// A role id of `configs`.
pub open spec fn config_has_id(configs: Seq<ShipConfig>, id: Seq<char>) -> bool {
    exists|i: int| 0 <= i < configs.len() && (#[trigger] configs[i]).id@ == id
}

/// A ship symbol of `ships`.
pub open spec fn ships_have(ships: Seq<ShipInfo>, s: Seq<char>) -> bool {
    exists|i: int| 0 <= i < ships.len() && (#[trigger] ships[i]).symbol@ == s
}

/// Pair `p` is one of the `saved` pairs.
pub open spec fn is_saved_pair(saved: Seq<(String, String)>, p: (String, String)) -> bool {
    exists|k: int| 0 <= k < saved.len() && p.0@ == saved[k].0@ && p.1@ == saved[k].1@
}

impl JobAssignments {
    pub open spec fn wf(self) -> bool {
        forall|i: int, j: int|
            0 <= i < self.pairs@.len() && 0 <= j < self.pairs@.len() && i != j ==> {
                &&& self.pairs@[i].0@ != self.pairs@[j].0@
                &&& self.pairs@[i].1@ != self.pairs@[j].1@
            }
    }

    /// Role `job` is held by ship `ship`.
    pub open spec fn holds(self, job: Seq<char>, ship: Seq<char>) -> bool {
        exists|i: int| 0 <= i < self.pairs@.len() && (#[trigger] self.pairs@[i]).0@ == job && self.pairs@[i].1@ == ship
    }

    pub open spec fn spec_job_assigned(self, job: Seq<char>) -> bool {
        exists|i: int| 0 <= i < self.pairs@.len() && (#[trigger] self.pairs@[i]).0@ == job
    }

    pub open spec fn spec_ship_assigned(self, ship: Seq<char>) -> bool {
        exists|i: int| 0 <= i < self.pairs@.len() && (#[trigger] self.pairs@[i]).1@ == ship
    }

    pub fn new() -> (r: JobAssignments)
        ensures
            r.wf(),
            r.pairs@.len() == 0,
    {
        JobAssignments { pairs: Vec::new() }
    }

    /// Assignments from saved pairs, keeping the first pair of any role or ship
    /// that appears more than once.
    pub fn from_pairs(saved: &Vec<(String, String)>) -> (r: JobAssignments)
        ensures
            r.wf(),
            forall|i: int| 0 <= i < r.pairs@.len() ==> is_saved_pair(saved@, #[trigger] r.pairs@[i]),
            forall|k: int| 0 <= k < saved@.len() ==> r.spec_job_assigned((#[trigger] saved@[k]).0@)
                || r.spec_ship_assigned(saved@[k].1@),
    {
        let mut r = JobAssignments::new();
        let mut k: usize = 0;
        while k < saved.len()
            invariant
                r.wf(),
                k <= saved@.len(),
                forall|i: int| 0 <= i < r.pairs@.len() ==> is_saved_pair(saved@, #[trigger] r.pairs@[i]),
                forall|j: int| 0 <= j < k ==> r.spec_job_assigned((#[trigger] saved@[j]).0@)
                    || r.spec_ship_assigned(saved@[j].1@),
            decreases saved@.len() - k,
        {
            let job_taken = r.job_assigned(&saved[k].0);
            let ship_taken = r.ship_assigned(&saved[k].1);
            if !job_taken && !ship_taken {
                let ghost before = r;
                r.pairs.push((saved[k].0.clone(), saved[k].1.clone()));
                proof {
                    let n = before.pairs@.len() as int;
                    before.lemma_push_keeps_assigned(r, (saved@[k as int].0, saved@[k as int].1));
                    assert forall|a: int, b: int| 0 <= a < r.pairs@.len() && 0 <= b < r.pairs@.len() && a != b implies {
                        &&& r.pairs@[a].0@ != r.pairs@[b].0@
                        &&& r.pairs@[a].1@ != r.pairs@[b].1@
                    } by {
                        if a == n {
                            assert(r.pairs@[b] == before.pairs@[b]);
                        } else if b == n {
                            assert(r.pairs@[a] == before.pairs@[a]);
                        }
                    }
                    assert forall|i: int| 0 <= i < r.pairs@.len() implies is_saved_pair(saved@, #[trigger] r.pairs@[i]) by {
                        if i < n {
                            assert(r.pairs@[i] == before.pairs@[i]);
                        } else {
                            assert(r.pairs@[i].0@ == saved@[k as int].0@);
                        }
                    }
                }
            }
            k += 1;
        }
        r
    }

    pub fn ship_assigned(&self, ship: &String) -> (r: bool)
        ensures
            r == self.spec_ship_assigned(ship@),
    {
        let mut i: usize = 0;
        while i < self.pairs.len()
            invariant
                i <= self.pairs@.len(),
                forall|k: int| 0 <= k < i ==> (#[trigger] self.pairs@[k]).1@ != ship@,
            decreases self.pairs@.len() - i,
        {
            if self.pairs[i].1 == *ship {
                return true;
            }
            i += 1;
        }
        false
    }

    pub fn job_assigned(&self, job: &String) -> (r: bool)
        ensures
            r == self.spec_job_assigned(job@),
    {
        let mut i: usize = 0;
        while i < self.pairs.len()
            invariant
                i <= self.pairs@.len(),
                forall|k: int| 0 <= k < i ==> (#[trigger] self.pairs@[k]).0@ != job@,
            decreases self.pairs@.len() - i,
        {
            if self.pairs[i].0 == *job {
                return true;
            }
            i += 1;
        }
        false
    }

    /// The role held by `ship`, if any.
    pub fn job_of(&self, ship: &String) -> (r: Option<String>)
        requires
            self.wf(),
        ensures
            match r {
                Some(j) => self.holds(j@, ship@),
                None => !self.spec_ship_assigned(ship@),
            },
    {
        let mut i: usize = 0;
        while i < self.pairs.len()
            invariant
                i <= self.pairs@.len(),
                forall|k: int| 0 <= k < i ==> (#[trigger] self.pairs@[k]).1@ != ship@,
            decreases self.pairs@.len() - i,
        {
            if self.pairs[i].1 == *ship {
                return Some(self.pairs[i].0.clone());
            }
            i += 1;
        }
        None
    }

    /// The ship holding role `job`, if any.
    pub fn ship_of(&self, job: &String) -> (r: Option<String>)
        requires
            self.wf(),
        ensures
            match r {
                Some(s) => self.holds(job@, s@),
                None => !self.spec_job_assigned(job@),
            },
    {
        let mut i: usize = 0;
        while i < self.pairs.len()
            invariant
                i <= self.pairs@.len(),
                forall|k: int| 0 <= k < i ==> (#[trigger] self.pairs@[k]).0@ != job@,
            decreases self.pairs@.len() - i,
        {
            if self.pairs[i].0 == *job {
                return Some(self.pairs[i].1.clone());
            }
            i += 1;
        }
        None
    }

    /// Assigns `ship` to the first role of `configs` that is free and needs its model.
    /// Returns the index of that role.
    pub fn try_assign_ship(&mut self, ship: &String, model: &String, configs: &Vec<ShipConfig>) -> (r: Option<usize>)
        requires
            old(self).wf(),
            !old(self).spec_ship_assigned(ship@),
        ensures
            final(self).wf(),
            match r {
                Some(k) => {
                    &&& k < configs@.len()
                    &&& configs@[k as int].ship_model@ == model@
                    &&& !old(self).spec_job_assigned(configs@[k as int].id@)
                    &&& forall|j: int| 0 <= j < k ==> !((#[trigger] configs@[j]).ship_model@ == model@
                        && !old(self).spec_job_assigned(configs@[j].id@))
                    &&& final(self).pairs@ == old(self).pairs@.push((configs@[k as int].id, *ship))
                },
                None => {
                    &&& forall|j: int| 0 <= j < configs@.len() ==> !((#[trigger] configs@[j]).ship_model@ == model@
                        && !old(self).spec_job_assigned(configs@[j].id@))
                    &&& final(self).pairs@ == old(self).pairs@
                },
            },
    {
        let mut k: usize = 0;
        while k < configs.len()
            invariant
                self.wf(),
                *self == *old(self),
                !old(self).spec_ship_assigned(ship@),
                k <= configs@.len(),
                forall|j: int| 0 <= j < k ==> !((#[trigger] configs@[j]).ship_model@ == model@
                    && !self.spec_job_assigned(configs@[j].id@)),
            decreases configs@.len() - k,
        {
            if configs[k].ship_model == *model && !self.job_assigned(&configs[k].id) {
                let ghost before = self.pairs@;
                self.pairs.push((configs[k].id.clone(), ship.clone()));
                proof {
                    assert forall|i: int, j: int|
                        0 <= i < self.pairs@.len() && 0 <= j < self.pairs@.len() && i != j implies {
                            &&& self.pairs@[i].0@ != self.pairs@[j].0@
                            &&& self.pairs@[i].1@ != self.pairs@[j].1@
                        } by {
                        let n = before.len() as int;
                        assert(before == old(self).pairs@);
                        if i == n {
                            assert(before[j] == self.pairs@[j]);
                            assert(old(self).pairs@[j].0@ != configs@[k as int].id@);
                            assert(old(self).pairs@[j].1@ != ship@);
                        } else if j == n {
                            assert(before[i] == self.pairs@[i]);
                            assert(old(self).pairs@[i].0@ != configs@[k as int].id@);
                            assert(old(self).pairs@[i].1@ != ship@);
                        }
                    }
                }
                return Some(k);
            }
            k += 1;
        }
        None
    }
}

/// Each role is held by at most one ship, each ship holds at most one role, and the
/// two directions of the assignment agree.
pub proof fn lemma_assignments_agree(a: JobAssignments, job: Seq<char>, s1: Seq<char>, s2: Seq<char>)
    requires
        a.wf(),
    ensures
        a.holds(job, s1) && a.holds(job, s2) ==> s1 == s2,
        a.holds(s1, job) && a.holds(s2, job) ==> s1 == s2,
        a.spec_ship_assigned(s1) <==> exists|r: Seq<char>| a.holds(r, s1),
        a.spec_job_assigned(job) <==> exists|s: Seq<char>| a.holds(job, s),
{
    if a.spec_ship_assigned(s1) {
        let i = choose|i: int| 0 <= i < a.pairs@.len() && (#[trigger] a.pairs@[i]).1@ == s1;
        assert(a.holds(a.pairs@[i].0@, s1));
    }
    if a.spec_job_assigned(job) {
        let i = choose|i: int| 0 <= i < a.pairs@.len() && (#[trigger] a.pairs@[i]).0@ == job;
        assert(a.holds(job, a.pairs@[i].1@));
    }
}

/// The role of pair `p` exists and so does its ship.
pub open spec fn pair_valid(p: (String, String), configs: Seq<ShipConfig>, ships: Seq<ShipInfo>) -> bool {
    config_has_id(configs, p.0@) && ships_have(ships, p.1@)
}

/// No free role of `configs` needs a ship of `model`.
pub open spec fn no_free_role(a: JobAssignments, configs: Seq<ShipConfig>, model: Seq<char>) -> bool {
    forall|j: int| 0 <= j < configs.len() ==> !((#[trigger] configs[j]).ship_model@ == model
        && !a.spec_job_assigned(configs[j].id@))
}

impl JobAssignments {
    /// Every pair names an existing role and ship, and no unassigned ship could
    /// take a free role.
    pub open spec fn settled(self, configs: Seq<ShipConfig>, ships: Seq<ShipInfo>) -> bool {
        &&& forall|i: int| 0 <= i < self.pairs@.len() ==> pair_valid(#[trigger] self.pairs@[i], configs, ships)
        &&& forall|i: int| 0 <= i < ships.len() && !self.spec_ship_assigned((#[trigger] ships[i]).symbol@)
            ==> no_free_role(self, configs, ships[i].model@)
    }

    proof fn lemma_push_keeps_assigned(self, next: JobAssignments, p: (String, String))
        requires
            next.pairs@ == self.pairs@.push(p),
        ensures
            forall|j: Seq<char>| self.spec_job_assigned(j) ==> #[trigger] next.spec_job_assigned(j),
            forall|s: Seq<char>| self.spec_ship_assigned(s) ==> #[trigger] next.spec_ship_assigned(s),
            next.spec_job_assigned(p.0@),
            next.spec_ship_assigned(p.1@),
    {
        assert forall|j: Seq<char>| self.spec_job_assigned(j) implies #[trigger] next.spec_job_assigned(j) by {
            let i = choose|i: int| 0 <= i < self.pairs@.len() && (#[trigger] self.pairs@[i]).0@ == j;
            assert(next.pairs@[i] == self.pairs@[i]);
        }
        assert forall|s: Seq<char>| self.spec_ship_assigned(s) implies #[trigger] next.spec_ship_assigned(s) by {
            let i = choose|i: int| 0 <= i < self.pairs@.len() && (#[trigger] self.pairs@[i]).1@ == s;
            assert(next.pairs@[i] == self.pairs@[i]);
        }
        assert(next.pairs@[self.pairs@.len() as int] == p);
    }

    /// Drops the pairs whose role or ship no longer exists, then assigns every
    /// unassigned ship to the first free role needing its model. Afterwards the
    /// assignments are settled, and running it on settled assignments changes nothing.
    pub fn refresh_assignments(&mut self, configs: &Vec<ShipConfig>, ships: &Vec<ShipInfo>)
        requires
            old(self).wf(),
        ensures
            final(self).wf(),
            final(self).settled(configs@, ships@),
            old(self).settled(configs@, ships@) ==> final(self).pairs@ == old(self).pairs@,
            forall|i: int| 0 <= i < old(self).pairs@.len() && pair_valid(#[trigger] old(self).pairs@[i], configs@, ships@)
                ==> final(self).holds(old(self).pairs@[i].0@, old(self).pairs@[i].1@),
    {
        let ghost settled0 = old(self).settled(configs@, ships@);
        let ghost pairs0 = old(self).pairs@;
        let mut kept: Vec<(String, String)> = Vec::new();
        let ghost mut idx: Seq<int> = Seq::empty();
        let mut i: usize = 0;
        while i < self.pairs.len()
            invariant
                self.wf(),
                self.pairs@ == pairs0,
                i <= pairs0.len(),
                kept@.len() == idx.len(),
                forall|k: int| 0 <= k < idx.len() ==> 0 <= #[trigger] idx[k] < i && kept@[k] == pairs0[idx[k]],
                forall|k: int, l: int| 0 <= k < l < idx.len() ==> idx[k] < idx[l],
                forall|k: int| 0 <= k < kept@.len() ==> pair_valid(#[trigger] kept@[k], configs@, ships@),
                forall|m: int| 0 <= m < i && pair_valid(#[trigger] pairs0[m], configs@, ships@) ==> exists|k: int|
                    0 <= k < idx.len() && idx[k] == m,
                (forall|m: int| 0 <= m < i ==> pair_valid(#[trigger] pairs0[m], configs@, ships@)) ==> kept@ == pairs0.take(i as int),
            decreases pairs0.len() - i,
        {
            let ghost old_idx = idx;
            let job_exists = config_exists(configs, &self.pairs[i].0);
            let ship_exists = ship_exists(ships, &self.pairs[i].1);
            if job_exists && ship_exists {
                kept.push((self.pairs[i].0.clone(), self.pairs[i].1.clone()));
                proof {
                    idx = idx.push(i as int);
                }
            }
            proof {
                assert forall|m: int| 0 <= m < i + 1 && pair_valid(#[trigger] pairs0[m], configs@, ships@) implies exists|k: int|
                    0 <= k < idx.len() && idx[k] == m by {
                    if m == i {
                        assert(idx[idx.len() - 1] == m);
                    } else {
                        let k = choose|k: int| 0 <= k < old_idx.len() && old_idx[k] == m;
                        assert(idx[k] == old_idx[k]);
                    }
                }
                if forall|m: int| 0 <= m < i + 1 ==> pair_valid(#[trigger] pairs0[m], configs@, ships@) {
                    assert(kept@ =~= pairs0.take(i + 1));
                }
            }
            i += 1;
        }
        proof {
            assert forall|a: int, b: int| 0 <= a < kept@.len() && 0 <= b < kept@.len() && a != b implies {
                &&& kept@[a].0@ != kept@[b].0@
                &&& kept@[a].1@ != kept@[b].1@
            } by {
                if a < b {
                    assert(idx[a] < idx[b]);
                } else {
                    assert(idx[b] < idx[a]);
                }
            }
            if settled0 {
                assert(kept@ =~= pairs0.take(pairs0.len() as int));
                assert(kept@ =~= pairs0);
            }
        }
        self.pairs = kept;
        let ghost pairs1 = self.pairs@;
        proof {
            assert forall|m: int| 0 <= m < pairs0.len() && pair_valid(#[trigger] pairs0[m], configs@, ships@)
                implies self.holds(pairs0[m].0@, pairs0[m].1@) by {
                let k = choose|k: int| 0 <= k < idx.len() && idx[k] == m;
                assert(self.pairs@[k] == pairs0[m]);
            }
        }
        let mut s: usize = 0;
        while s < ships.len()
            invariant
                self.wf(),
                s <= ships@.len(),
                forall|k: int| 0 <= k < self.pairs@.len() ==> pair_valid(#[trigger] self.pairs@[k], configs@, ships@),
                forall|m: int| 0 <= m < s && !self.spec_ship_assigned((#[trigger] ships@[m]).symbol@)
                    ==> no_free_role(*self, configs@, ships@[m].model@),
                settled0 ==> self.pairs@ == pairs1,
                settled0 ==> pairs1 == pairs0,
                forall|m: int| 0 <= m < pairs0.len() && pair_valid(#[trigger] pairs0[m], configs@, ships@)
                    ==> self.holds(pairs0[m].0@, pairs0[m].1@),
                settled0 ==> old(self).settled(configs@, ships@),
                pairs0 == old(self).pairs@,
            decreases ships@.len() - s,
        {
            let ghost before = *self;
            if !self.ship_assigned(&ships[s].symbol) {
                let r = self.try_assign_ship(&ships[s].symbol, &ships[s].model, configs);
                proof {
                    if r is Some {
                        let c = r->0;
                        before.lemma_push_keeps_assigned(*self, (configs@[c as int].id, ships@[s as int].symbol));
                        assert(config_has_id(configs@, configs@[c as int].id@));
                        assert(ships_have(ships@, ships@[s as int].symbol@));
                        assert forall|k: int| 0 <= k < self.pairs@.len() implies pair_valid(#[trigger] self.pairs@[k], configs@, ships@) by {
                            if k < before.pairs@.len() {
                                assert(self.pairs@[k] == before.pairs@[k]);
                            }
                        }
                        assert forall|m: int| 0 <= m < s + 1 && !self.spec_ship_assigned((#[trigger] ships@[m]).symbol@)
                            implies no_free_role(*self, configs@, ships@[m].model@) by {
                            assert(!before.spec_ship_assigned(ships@[m].symbol@));
                            assert forall|j: int| 0 <= j < configs@.len() implies !((#[trigger] configs@[j]).ship_model@ == ships@[m].model@
                                && !self.spec_job_assigned(configs@[j].id@)) by {
                                assert(!(configs@[j].ship_model@ == ships@[m].model@ && !before.spec_job_assigned(configs@[j].id@)));
                            }
                        }
                        assert forall|m: int| 0 <= m < pairs0.len() && pair_valid(#[trigger] pairs0[m], configs@, ships@)
                            implies self.holds(pairs0[m].0@, pairs0[m].1@) by {
                            assert(before.holds(pairs0[m].0@, pairs0[m].1@));
                            let k = choose|k: int| 0 <= k < before.pairs@.len() && (#[trigger] before.pairs@[k]).0@ == pairs0[m].0@ && before.pairs@[k].1@ == pairs0[m].1@;
                            assert(self.pairs@[k] == before.pairs@[k]);
                        }
                        if settled0 {
                            assert(before.pairs@ == old(self).pairs@);
                            assert(!old(self).spec_ship_assigned(ships@[s as int].symbol@));
                            assert(no_free_role(*old(self), configs@, ships@[s as int].model@));
                            assert(!(configs@[c as int].ship_model@ == ships@[s as int].model@ && !old(self).spec_job_assigned(configs@[c as int].id@)));
                        }
                    }
                }
            }
            s += 1;
        }
    }
}

/// Whether some role of `configs` has id `id`.
fn config_exists(configs: &Vec<ShipConfig>, id: &String) -> (r: bool)
    ensures
        r == config_has_id(configs@, id@),
{
    let mut i: usize = 0;
    while i < configs.len()
        invariant
            i <= configs@.len(),
            forall|k: int| 0 <= k < i ==> (#[trigger] configs@[k]).id@ != id@,
        decreases configs@.len() - i,
    {
        if configs[i].id == *id {
            return true;
        }
        i += 1;
    }
    false
}

/// Whether some ship of `ships` has symbol `symbol`.
fn ship_exists(ships: &Vec<ShipInfo>, symbol: &String) -> (r: bool)
    ensures
        r == ships_have(ships@, symbol@),
{
    let mut i: usize = 0;
    while i < ships.len()
        invariant
            i <= ships@.len(),
            forall|k: int| 0 <= k < i ==> (#[trigger] ships@[k]).symbol@ != symbol@,
        decreases ships@.len() - i,
    {
        if ships[i].symbol == *symbol {
            return true;
        }
        i += 1;
    }
    false
}

/// The ship of `ships` named `symbol`, the first one if several are.
pub fn find_ship<'a>(ships: &'a Vec<ShipInfo>, symbol: &String) -> (r: Option<&'a ShipInfo>)
    ensures
        match r {
            Some(s) => s.symbol@ == symbol@ && exists|k: int| 0 <= k < ships@.len() && ships@[k] == *s
                && forall|j: int| 0 <= j < k ==> (#[trigger] ships@[j]).symbol@ != symbol@,
            None => !ships_have(ships@, symbol@),
        },
{
    let mut i: usize = 0;
    while i < ships.len()
        invariant
            i <= ships@.len(),
            forall|k: int| 0 <= k < i ==> (#[trigger] ships@[k]).symbol@ != symbol@,
        decreases ships@.len() - i,
    {
        if ships[i].symbol == *symbol {
            return Some(&ships[i]);
        }
        i += 1;
    }
    None
}

/// The first ship of `ships` named `symbol`.
pub open spec fn ship_named(ships: Seq<ShipInfo>, symbol: Seq<char>, s: ShipInfo) -> bool {
    exists|k: int| 0 <= k < ships.len() && ships[k] == s && s.symbol@ == symbol
        && forall|j: int| 0 <= j < k ==> (#[trigger] ships[j]).symbol@ != symbol
}

/// The waypoint that role `c`, held by ship `s`, watches without moving: a probe
/// role with a single waypoint whose ship sits there; or a construction hauler
/// resting outside the starting system.
pub open spec fn static_watch(c: ShipConfig, s: ShipInfo, starting_system: Seq<char>) -> Option<Seq<char>> {
    match c.behaviour {
        ShipBehaviour::Probe(wps) => if wps@.len() == 1 && !s.in_transit && s.waypoint@ == wps@[0]@ {
            Some(wps@[0]@)
        } else {
            None
        },
        ShipBehaviour::ConstructionHauler => if !s.in_transit && s.system@ != starting_system {
            Some(s.waypoint@)
        } else {
            None
        },
        _ => None,
    }
}

/// Entry `e` names a ship holding some role of `configs` and the waypoint that
/// role makes it watch without moving.
pub open spec fn is_static_watch(configs: Seq<ShipConfig>, a: JobAssignments, ships: Seq<ShipInfo>, starting_system: Seq<char>, e: (String, String)) -> bool {
    exists|c: int, s: ShipInfo| 0 <= c < configs.len() && a.holds(configs[c].id@, e.0@) && ship_named(ships, e.0@, s)
        && #[trigger] static_watch(configs[c], s, starting_system) == Some(e.1@)
}

/// The waypoints watched by a ship that does not move, with that ship: probes on a
/// single waypoint, and construction haulers resting at a shipyard away from home
/// (these can buy ships there).
pub fn statically_probed_waypoints(configs: &Vec<ShipConfig>, assignments: &JobAssignments, ships: &Vec<ShipInfo>, starting_system: &String) -> (r: Vec<(String, String)>)
    requires
        assignments.wf(),
    ensures
        forall|i: int| 0 <= i < r@.len() ==> is_static_watch(configs@, *assignments, ships@, starting_system@, #[trigger] r@[i]),
        forall|c: int, s: ShipInfo| 0 <= c < configs@.len() && ship_named(ships@, s.symbol@, s)
            && assignments.holds(configs@[c].id@, s.symbol@) && (#[trigger] static_watch(configs@[c], s, starting_system@)) is Some
            ==> exists|i: int| 0 <= i < r@.len() && r@[i].0@ == s.symbol@ && r@[i].1@ == static_watch(configs@[c], s, starting_system@)->0,
{
    let mut r: Vec<(String, String)> = Vec::new();
    let mut c: usize = 0;
    while c < configs.len()
        invariant
            assignments.wf(),
            c <= configs@.len(),
            forall|i: int| 0 <= i < r@.len() ==> is_static_watch(configs@, *assignments, ships@, starting_system@, #[trigger] r@[i]),
            forall|cc: int, s: ShipInfo| 0 <= cc < c && ship_named(ships@, s.symbol@, s)
                && assignments.holds(configs@[cc].id@, s.symbol@) && (#[trigger] static_watch(configs@[cc], s, starting_system@)) is Some
                ==> exists|i: int| 0 <= i < r@.len() && r@[i].0@ == s.symbol@ && r@[i].1@ == static_watch(configs@[cc], s, starting_system@)->0,
        decreases configs@.len() - c,
    {
        let ghost before = r@;
        if let Some(ship_symbol) = assignments.ship_of(&configs[c].id) {
            if let Some(ship) = find_ship(ships, &ship_symbol) {
                let watched: Option<String> = match &configs[c].behaviour {
                    ShipBehaviour::Probe(wps) => {
                        if wps.len() == 1 && !ship.in_transit && ship.waypoint == wps[0] {
                            Some(wps[0].clone())
                        } else {
                            None
                        }
                    },
                    ShipBehaviour::ConstructionHauler => {
                        if !ship.in_transit && ship.system != *starting_system {
                            Some(ship.waypoint.clone())
                        } else {
                            None
                        }
                    },
                    _ => None,
                };
                proof {
                    assert(ship_named(ships@, ship_symbol@, *ship));
                    assert(watched matches Some(w) ==> static_watch(configs@[c as int], *ship, starting_system@) == Some(w@));
                    assert(watched is None ==> static_watch(configs@[c as int], *ship, starting_system@) is None);
                }
                if let Some(w) = watched {
                    r.push((ship.symbol.clone(), w));
                    proof {
                        let n = before.len() as int;
                        assert(r@[n].0@ == ship_symbol@);
                        assert forall|i: int| 0 <= i < r@.len() implies is_static_watch(configs@, *assignments, ships@, starting_system@, #[trigger] r@[i]) by {
                            if i < n {
                                assert(r@[i] == before[i]);
                            } else {
                                assert(ship_named(ships@, r@[i].0@, *ship));
                                assert(assignments.holds(configs@[c as int].id@, r@[i].0@));
                                assert(static_watch(configs@[c as int], *ship, starting_system@) == Some(r@[i].1@));
                            }
                        }
                    }
                }
                proof {
                    assert forall|cc: int, s: ShipInfo| 0 <= cc < c + 1 && ship_named(ships@, s.symbol@, s)
                        && assignments.holds(configs@[cc].id@, s.symbol@) && (#[trigger] static_watch(configs@[cc], s, starting_system@)) is Some
                        implies exists|i: int| 0 <= i < r@.len() && r@[i].0@ == s.symbol@ && r@[i].1@ == static_watch(configs@[cc], s, starting_system@)->0 by {
                        if cc < c {
                            let i = choose|i: int| 0 <= i < before.len() && before[i].0@ == s.symbol@ && before[i].1@ == static_watch(configs@[cc], s, starting_system@)->0;
                            assert(r@[i] == before[i]);
                        } else {
                            lemma_assignments_agree(*assignments, configs@[c as int].id@, s.symbol@, ship_symbol@);
                            let k1 = choose|k: int| 0 <= k < ships@.len() && ships@[k] == s && s.symbol@ == s.symbol@
                                && forall|j: int| 0 <= j < k ==> (#[trigger] ships@[j]).symbol@ != s.symbol@;
                            let k2 = choose|k: int| 0 <= k < ships@.len() && ships@[k] == *ship && ship.symbol@ == ship_symbol@
                                && forall|j: int| 0 <= j < k ==> (#[trigger] ships@[j]).symbol@ != ship_symbol@;
                            if k1 < k2 {
                                assert(ships@[k1].symbol@ != ship_symbol@);
                            } else if k2 < k1 {
                                assert(ships@[k2].symbol@ != s.symbol@);
                            }
                            assert(r@[before.len() as int].0@ == s.symbol@);
                        }
                    }
                }
            } else {
                proof {
                    assert forall|cc: int, s: ShipInfo| 0 <= cc < c + 1 && ship_named(ships@, s.symbol@, s)
                        && assignments.holds(configs@[cc].id@, s.symbol@) && (#[trigger] static_watch(configs@[cc], s, starting_system@)) is Some
                        implies exists|i: int| 0 <= i < r@.len() && r@[i].0@ == s.symbol@ && r@[i].1@ == static_watch(configs@[cc], s, starting_system@)->0 by {
                        if cc == c {
                            lemma_assignments_agree(*assignments, configs@[c as int].id@, s.symbol@, ship_symbol@);
                            let k1 = choose|k: int| 0 <= k < ships@.len() && ships@[k] == s && s.symbol@ == s.symbol@
                                && forall|j: int| 0 <= j < k ==> (#[trigger] ships@[j]).symbol@ != s.symbol@;
                            assert(ships_have(ships@, ship_symbol@));
                        }
                    }
                }
            }
        } else {
            proof {
                assert forall|cc: int, s: ShipInfo| 0 <= cc < c + 1 && ship_named(ships@, s.symbol@, s)
                    && assignments.holds(configs@[cc].id@, s.symbol@) && (#[trigger] static_watch(configs@[cc], s, starting_system@)) is Some
                    implies exists|i: int| 0 <= i < r@.len() && r@[i].0@ == s.symbol@ && r@[i].1@ == static_watch(configs@[cc], s, starting_system@)->0 by {
                    if cc == c {
                        let k = choose|k: int| 0 <= k < assignments.pairs@.len() && (#[trigger] assignments.pairs@[k]).0@ == configs@[c as int].id@ && assignments.pairs@[k].1@ == s.symbol@;
                        assert(assignments.spec_job_assigned(configs@[c as int].id@));
                    }
                }
            }
        }
        c += 1;
    }
    r
}

/// Whether `text` contains a match of the regular expression `pattern`.
pub uninterp spec fn regex_matches(pattern: Seq<char>, text: Seq<char>) -> bool;

/// Whether `pattern` compiles to a regular expression (within the size limits).
pub uninterp spec fn regex_compiles(pattern: Seq<char>) -> bool;

/// Relies on regex::Regex::new, which fails exactly on a pattern that does not
/// compile (whether it does depends on the pattern alone), and on
/// regex::Regex::is_match, which tells whether the text contains a match; that
/// answer depends on the pattern and the text alone.
#[verifier::external_body]
fn pattern_matches(pattern: &str, text: &str) -> (r: Option<bool>)
    ensures
        r is Some <==> regex_compiles(pattern@),
        r matches Some(b) ==> b == regex_matches(pattern@, text@),
{
    match regex::Regex::new(pattern) {
        Ok(re) => Some(re.is_match(text)),
        Err(_) => None,
    }
}

/// What a ship is set to do when its executor is started.
#[derive(Clone, Copy, Debug, PartialEq, Eq, Structural)]
pub enum ShipRunner {
    /// Scrap the ship.
    Scrap,
    /// Run the script of the role at this index of the configuration.
    Run(usize),
    /// Start nothing: the ship has no role, its role is filtered out, or it is damaged.
    Idle,
}

/// Why no runner could be chosen.
#[derive(Clone, Copy, Debug, PartialEq, Eq, Structural)]
pub enum RunnerError {
    /// The ship holds a role that the configuration does not have.
    UnknownRole,
    /// The role filter is not a valid regular expression.
    InvalidFilter,
}

/// The index of the first role of `configs` with id `id`.
pub open spec fn first_role(configs: Seq<ShipConfig>, id: Seq<char>, k: int) -> bool {
    0 <= k < configs.len() && configs[k].id@ == id && forall|j: int| 0 <= j < k ==> (#[trigger] configs[j]).id@ != id
}

/// Chooses what the executor of `ship` runs: scrapping when all ships are to be
/// scrapped, or when it has no role and unassigned ships are; otherwise its role's
/// script, unless the role id does not match `job_id_filter` or a component of
/// the ship is damaged (`components_intact` false).
pub fn choose_runner(ship: &String, assignments: &JobAssignments, configs: &Vec<ShipConfig>, scrap_all_ships: bool, scrap_unassigned: bool, job_id_filter: &String, components_intact: bool) -> (r: Result<ShipRunner, RunnerError>)
    requires
        assignments.wf(),
    ensures
        (scrap_all_ships || (!assignments.spec_ship_assigned(ship@) && scrap_unassigned)) ==> r == Ok::<ShipRunner, RunnerError>(ShipRunner::Scrap),
        !scrap_all_ships && !assignments.spec_ship_assigned(ship@) && !scrap_unassigned ==> r == Ok::<ShipRunner, RunnerError>(ShipRunner::Idle),
        !scrap_all_ships && assignments.spec_ship_assigned(ship@) ==> match r {
            Ok(ShipRunner::Run(k)) => exists|job: Seq<char>| #[trigger] assignments.holds(job, ship@) && first_role(configs@, job, k as int)
                && regex_matches(job_id_filter@, job) && components_intact,
            Ok(ShipRunner::Idle) => exists|job: Seq<char>, k: int| #[trigger] assignments.holds(job, ship@) && #[trigger] first_role(configs@, job, k)
                && (!regex_matches(job_id_filter@, job) || !components_intact),
            Err(RunnerError::UnknownRole) => forall|job: Seq<char>| #[trigger] assignments.holds(job, ship@)
                ==> !config_has_id(configs@, job),
            Err(RunnerError::InvalidFilter) => !regex_compiles(job_id_filter@),
            Ok(ShipRunner::Scrap) => false,
        },
{
    let job = assignments.job_of(ship);
    if scrap_all_ships || (job.is_none() && scrap_unassigned) {
        return Ok(ShipRunner::Scrap);
    }
    let job = match job {
        Some(j) => j,
        None => return Ok(ShipRunner::Idle),
    };
    proof {
        let i = choose|i: int| 0 <= i < assignments.pairs@.len() && (#[trigger] assignments.pairs@[i]).0@ == job@ && assignments.pairs@[i].1@ == ship@;
        assert(assignments.spec_ship_assigned(ship@));
    }
    let mut k: usize = 0;
    while k < configs.len()
        invariant
            assignments.wf(),
            !scrap_all_ships,
            assignments.spec_ship_assigned(ship@),
            assignments.holds(job@, ship@),
            k <= configs@.len(),
            forall|j: int| 0 <= j < k ==> (#[trigger] configs@[j]).id@ != job@,
        decreases configs@.len() - k,
    {
        if configs[k].id == job {
            proof {
                assert(first_role(configs@, job@, k as int));
            }
            return match pattern_matches(job_id_filter.as_str(), configs[k].id.as_str()) {
                None => Err(RunnerError::InvalidFilter),
                Some(false) => Ok(ShipRunner::Idle),
                Some(true) => {
                    if components_intact {
                        Ok(ShipRunner::Run(k))
                    } else {
                        Ok(ShipRunner::Idle)
                    }
                },
            };
        }
        k += 1;
    }
    proof {
        assert forall|j: Seq<char>| #[trigger] assignments.holds(j, ship@) implies !config_has_id(configs@, j) by {
            lemma_assignments_agree(*assignments, j, ship@, ship@);
            let a = choose|i: int| 0 <= i < assignments.pairs@.len() && (#[trigger] assignments.pairs@[i]).0@ == j && assignments.pairs@[i].1@ == ship@;
            let b = choose|i: int| 0 <= i < assignments.pairs@.len() && (#[trigger] assignments.pairs@[i]).0@ == job@ && assignments.pairs@[i].1@ == ship@;
            assert(a == b);
        }
    }
    Err(RunnerError::UnknownRole)
}

/// Entry `e` names a ship holding a probe role of `configs` and that role's waypoints.
pub open spec fn is_probe_entry(configs: Seq<ShipConfig>, a: JobAssignments, e: (String, Vec<String>)) -> bool {
    exists|c: int| 0 <= c < configs.len() && (#[trigger] configs[c]).behaviour is Probe
        && a.holds(configs[c].id@, e.0@) && e.1@ == configs[c].behaviour->Probe_0@
}

/// The ships holding probe roles, each with the waypoints its role visits.
pub fn probed_waypoints(configs: &Vec<ShipConfig>, assignments: &JobAssignments) -> (r: Vec<(String, Vec<String>)>)
    requires
        assignments.wf(),
    ensures
        forall|i: int| 0 <= i < r@.len() ==> is_probe_entry(configs@, *assignments, #[trigger] r@[i]),
        forall|c: int, s: Seq<char>| 0 <= c < configs@.len() && configs@[c].behaviour is Probe
            && #[trigger] assignments.holds(configs@[c].id@, s) ==> exists|i: int| 0 <= i < r@.len() && r@[i].0@ == s
                && r@[i].1@ == configs@[c].behaviour->Probe_0@,
{
    let mut r: Vec<(String, Vec<String>)> = Vec::new();
    let mut c: usize = 0;
    while c < configs.len()
        invariant
            assignments.wf(),
            c <= configs@.len(),
            forall|i: int| 0 <= i < r@.len() ==> is_probe_entry(configs@, *assignments, #[trigger] r@[i]),
            forall|cc: int, s: Seq<char>| 0 <= cc < c && configs@[cc].behaviour is Probe
                && #[trigger] assignments.holds(configs@[cc].id@, s) ==> exists|i: int| 0 <= i < r@.len() && r@[i].0@ == s
                    && r@[i].1@ == configs@[cc].behaviour->Probe_0@,
        decreases configs@.len() - c,
    {
        let ghost before = r@;
        if let ShipBehaviour::Probe(wps) = &configs[c].behaviour {
            if let Some(ship) = assignments.ship_of(&configs[c].id) {
                let copy = clone_strings(wps);
                r.push((ship, copy));
                proof {
                    let n = before.len() as int;
                    assert forall|i: int| 0 <= i < r@.len() implies is_probe_entry(configs@, *assignments, #[trigger] r@[i]) by {
                        if i < n {
                            assert(r@[i] == before[i]);
                        } else {
                            assert(configs@[c as int].behaviour is Probe);
                            assert(assignments.holds(configs@[c as int].id@, r@[i].0@));
                        }
                    }
                    assert forall|cc: int, s: Seq<char>| 0 <= cc < c + 1 && configs@[cc].behaviour is Probe
                        && #[trigger] assignments.holds(configs@[cc].id@, s) implies exists|i: int| 0 <= i < r@.len() && r@[i].0@ == s
                            && r@[i].1@ == configs@[cc].behaviour->Probe_0@ by {
                        if cc < c {
                            let i = choose|i: int| 0 <= i < before.len() && before[i].0@ == s && before[i].1@ == configs@[cc].behaviour->Probe_0@;
                            assert(r@[i] == before[i]);
                        } else {
                            lemma_assignments_agree(*assignments, configs@[c as int].id@, s, ship@);
                            assert(r@[n].0@ == s);
                        }
                    }
                }
            } else {
                proof {
                    assert forall|cc: int, s: Seq<char>| 0 <= cc < c + 1 && configs@[cc].behaviour is Probe
                        && #[trigger] assignments.holds(configs@[cc].id@, s) implies exists|i: int| 0 <= i < r@.len() && r@[i].0@ == s
                            && r@[i].1@ == configs@[cc].behaviour->Probe_0@ by {
                        if cc == c {
                            let k = choose|k: int| 0 <= k < assignments.pairs@.len() && (#[trigger] assignments.pairs@[k]).0@ == configs@[c as int].id@ && assignments.pairs@[k].1@ == s;
                            assert(assignments.spec_job_assigned(configs@[c as int].id@));
                        }
                    }
                }
            }
        }
        c += 1;
    }
    r
}

/// A copy of a list of strings.
fn clone_strings(v: &Vec<String>) -> (r: Vec<String>)
    ensures
        r@ == v@,
{
    let mut r: Vec<String> = Vec::new();
    let mut i: usize = 0;
    while i < v.len()
        invariant
            i <= v@.len(),
            r@ == v@.take(i as int),
        decreases v@.len() - i,
    {
        r.push(v[i].clone());
        proof {
            assert(r@ =~= v@.take(i + 1));
        }
        i += 1;
    }
    proof {
        assert(v@.take(v@.len() as int) =~= v@);
    }
    r
}

/// The index of the first role of `configs` that no ship holds.
pub fn next_unfilled_role(configs: &Vec<ShipConfig>, assignments: &JobAssignments) -> (r: Option<usize>)
    ensures
        match r {
            Some(k) => k < configs@.len() && !assignments.spec_job_assigned(configs@[k as int].id@)
                && forall|j: int| 0 <= j < k ==> assignments.spec_job_assigned((#[trigger] configs@[j]).id@),
            None => forall|j: int| 0 <= j < configs@.len() ==> assignments.spec_job_assigned((#[trigger] configs@[j]).id@),
        },
{
    let mut k: usize = 0;
    while k < configs.len()
        invariant
            k <= configs@.len(),
            forall|j: int| 0 <= j < k ==> assignments.spec_job_assigned((#[trigger] configs@[j]).id@),
        decreases configs@.len() - k,
    {
        if !assignments.job_assigned(&configs[k].id) {
            return Some(k);
        }
        k += 1;
    }
    None
}

/// How the role configuration is generated for an era.
#[derive(Clone, Copy, Debug, PartialEq, Eq, Structural)]
pub struct ConfigPlan {
    /// Probes that move between waypoints are used.
    pub use_nonstatic_probes: bool,
    /// Probes and siphons for the outer waypoints are included.
    pub include_outer_probes_and_siphons: bool,
}

/// Why no role configuration can be generated.
#[derive(Clone, Copy, Debug, PartialEq, Eq, Structural)]
pub enum ConfigError {
    /// Late-game configurations are not designed yet.
    LateGameUnsupported,
    /// Configurations without the jump gate are not designed yet.
    NoGateUnsupported,
    /// Configurations for the capital system are not designed yet.
    CapitalSystemUnsupported,
}

/// How the starting system's roles are generated in `era`; the eras and modes whose
/// generators are not designed fail.
pub fn ship_config_plan(era: crate::era::AgentEra, no_gate_mode: bool) -> (r: Result<ConfigPlan, ConfigError>)
    ensures
        r == if era == crate::era::AgentEra::InterSystem2 {
            Err(ConfigError::LateGameUnsupported)
        } else if no_gate_mode {
            Err(ConfigError::NoGateUnsupported)
        } else if era == crate::era::AgentEra::InterSystem1 {
            Err(ConfigError::CapitalSystemUnsupported)
        } else {
            Ok(ConfigPlan {
                use_nonstatic_probes: true,
                include_outer_probes_and_siphons: era != crate::era::AgentEra::StartingSystem1,
            })
        },
{
    match era {
        crate::era::AgentEra::InterSystem2 => Err(ConfigError::LateGameUnsupported),
        _ => {
            if no_gate_mode {
                Err(ConfigError::NoGateUnsupported)
            } else {
                match era {
                    crate::era::AgentEra::InterSystem1 => Err(ConfigError::CapitalSystemUnsupported),
                    crate::era::AgentEra::StartingSystem1 => Ok(ConfigPlan { use_nonstatic_probes: true, include_outer_probes_and_siphons: false }),
                    _ => Ok(ConfigPlan { use_nonstatic_probes: true, include_outer_probes_and_siphons: true }),
                }
            }
        },
    }
}

} // verus!
