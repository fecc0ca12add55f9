//! Claiming exploration targets: the next uncharted jump gate for a probe, the
//! next starter system for an explorer. A target claimed by one ship is not
//! offered to another.
use vstd::prelude::*;
use crate::graph::{
    Adjacency, has_arc, is_least_cost, is_walk, least_costs_from, reachable, walk_cost,
    well_formed_graph,
};

verus! {

/// A graph of systems or gates: node symbols, weighted arcs, and a flag per node
/// (for gates: all of its connections are known; for systems: it is a starter system).
pub struct TargetGraph {
    pub symbols: Vec<String>,
    pub adj: Adjacency,
    pub flags: Vec<bool>,
}

/// Which ship has claimed which target symbol.
pub struct Reservations {
    pub entries: Vec<(String, String)>,
}

impl TargetGraph {
    pub open spec fn wf(self) -> bool {
        &&& well_formed_graph(self.adj@)
        &&& self.symbols@.len() == self.adj@.len()
        &&& self.flags@.len() == self.adj@.len()
    }
}

impl Reservations {
    pub open spec fn wf(self) -> bool {
        forall|i: int, j: int|
            0 <= i < self.entries@.len() && 0 <= j < self.entries@.len() && i != j
                ==> self.entries@[i].0@ != self.entries@[j].0@
    }

    /// The target claimed by `ship`.
    pub open spec fn claim_of(self, ship: Seq<char>) -> Option<Seq<char>> {
        if exists|i: int| 0 <= i < self.entries@.len() && (#[trigger] self.entries@[i]).0@ == ship {
            let i = choose|i: int| 0 <= i < self.entries@.len() && (#[trigger] self.entries@[i]).0@ == ship;
            Some(self.entries@[i].1@)
        } else {
            None
        }
    }

    /// Some ship has claimed `target`.
    pub open spec fn is_claimed(self, target: Seq<char>) -> bool {
        exists|i: int| 0 <= i < self.entries@.len() && (#[trigger] self.entries@[i]).1@ == target
    }

    pub fn new() -> (r: Reservations)
        ensures
            r.wf(),
            r.entries@.len() == 0,
    {
        Reservations { entries: Vec::new() }
    }

    /// Every claim is one of `saved`, and every ship of `saved` has a claim (the
    /// first saved one, where a ship appears twice).
    pub open spec fn restored_from(self, saved: Seq<(String, String)>) -> bool {
        &&& self.wf()
        &&& forall|i: int| 0 <= i < self.entries@.len() ==> crate::fleet::is_saved_pair(saved, #[trigger] self.entries@[i])
        &&& forall|k: int| 0 <= k < saved.len() ==> (#[trigger] self.claim_of(saved[k].0@)) is Some
    }

    /// Claims restored from saved pairs of ship and target.
    pub fn from_pairs(saved: &Vec<(String, String)>) -> (r: Reservations)
        ensures
            r.restored_from(saved@),
    {
        let mut r = Reservations::new();
        let mut k: usize = 0;
        while k < saved.len()
            invariant
                r.wf(),
                k <= saved@.len(),
                forall|i: int| 0 <= i < r.entries@.len() ==> crate::fleet::is_saved_pair(saved@, #[trigger] r.entries@[i]),
                forall|j: int| 0 <= j < k ==> (#[trigger] r.claim_of(saved@[j].0@)) is Some,
            decreases saved@.len() - k,
        {
            if r.claim_index(&saved[k].0).is_none() {
                let ghost before = r;
                r.claim(&saved[k].0, &saved[k].1);
                proof {
                    assert forall|i: int| 0 <= i < r.entries@.len() implies crate::fleet::is_saved_pair(saved@, #[trigger] r.entries@[i]) by {
                        if i < before.entries@.len() {
                            assert(r.entries@[i] == before.entries@[i]);
                        } else {
                            assert(r.entries@[i].0@ == saved@[k as int].0@);
                        }
                    }
                    assert forall|j: int| 0 <= j < k + 1 implies (#[trigger] r.claim_of(saved@[j].0@)) is Some by {
                        if j < k && saved@[j].0@ != saved@[k as int].0@ {
                            assert(before.claim_of(saved@[j].0@) is Some);
                        }
                    }
                }
            }
            k += 1;
        }
        r
    }

    fn claim_index(&self, ship: &String) -> (r: Option<usize>)
        requires
            self.wf(),
        ensures
            match r {
                Some(i) => i < self.entries@.len() && self.entries@[i as int].0@ == ship@
                    && self.claim_of(ship@) == Some(self.entries@[i as int].1@),
                None => self.claim_of(ship@) is None,
            },
    {
        let mut i: usize = 0;
        while i < self.entries.len()
            invariant
                self.wf(),
                i <= self.entries@.len(),
                forall|k: int| 0 <= k < i ==> (#[trigger] self.entries@[k]).0@ != ship@,
            decreases self.entries@.len() - i,
        {
            if self.entries[i].0 == *ship {
                proof {
                    let j = choose|j: int| 0 <= j < self.entries@.len() && (#[trigger] self.entries@[j]).0@ == ship@;
                    assert(j == i as int);
                }
                return Some(i);
            }
            i += 1;
        }
        None
    }

    fn claimed(&self, target: &String) -> (r: bool)
        ensures
            r == self.is_claimed(target@),
    {
        let mut i: usize = 0;
        while i < self.entries.len()
            invariant
                i <= self.entries@.len(),
                forall|k: int| 0 <= k < i ==> (#[trigger] self.entries@[k]).1@ != target@,
            decreases self.entries@.len() - i,
        {
            if self.entries[i].1 == *target {
                return true;
            }
            i += 1;
        }
        false
    }

    /// Drops the claim of `ship`.
    pub fn clear(&mut self, ship: &String)
        requires
            old(self).wf(),
        ensures
            final(self).wf(),
            final(self).claim_of(ship@) is None,
            forall|s: Seq<char>| s != ship@ ==> #[trigger] final(self).claim_of(s) == old(self).claim_of(s),
    {
        match self.claim_index(ship) {
            None => {},
            Some(i) => {
                let ghost old_entries = self.entries@;
                self.entries.remove(i);
                proof {
                    assert forall|a: int, b: int| 0 <= a < self.entries@.len() && 0 <= b < self.entries@.len() && a != b
                        implies self.entries@[a].0@ != self.entries@[b].0@ by {
                        let oa = if a < i { a } else { a + 1 };
                        let ob = if b < i { b } else { b + 1 };
                        assert(self.entries@[a] == old_entries[oa]);
                        assert(self.entries@[b] == old_entries[ob]);
                    }
                    let j0 = choose|j: int| 0 <= j < old_entries.len() && (#[trigger] old_entries[j]).0@ == ship@;
                    assert(j0 == i as int);
                    assert forall|k: int| 0 <= k < self.entries@.len() implies (#[trigger] self.entries@[k]).0@ != ship@ by {
                        let ok = if k < i { k } else { k + 1 };
                        assert(self.entries@[k] == old_entries[ok]);
                    }
                    assert forall|s: Seq<char>| s != ship@ implies #[trigger] self.claim_of(s) == old(self).claim_of(s) by {
                        if self.claim_of(s) is Some {
                            let k = choose|k: int| 0 <= k < self.entries@.len() && (#[trigger] self.entries@[k]).0@ == s;
                            let ok = if k < i { k } else { k + 1 };
                            assert(self.entries@[k] == old_entries[ok]);
                            let k2 = choose|k2: int| 0 <= k2 < old_entries.len() && (#[trigger] old_entries[k2]).0@ == s;
                            assert(k2 == ok);
                        }
                        if old(self).claim_of(s) is Some {
                            let k = choose|k: int| 0 <= k < old_entries.len() && (#[trigger] old_entries[k]).0@ == s;
                            assert(k != i);
                            let nk = if k < i { k } else { k - 1 };
                            assert(self.entries@[nk] == old_entries[k]);
                        }
                    }
                }
            },
        }
    }
}

proof fn lemma_walk_cost_nonneg(adj: Seq<Vec<(usize, i64)>>, p: Seq<usize>)
    requires
        well_formed_graph(adj),
        forall|i: int| 0 <= i < p.len() - 1 ==> #[trigger] has_arc(adj, p[i] as int, p[i + 1] as int),
    ensures
        walk_cost(adj, p) >= 0,
    decreases p.len(),
{
    if p.len() > 1 {
        let q = p.drop_last();
        assert forall|i: int| 0 <= i < q.len() - 1 implies #[trigger] has_arc(adj, q[i] as int, q[i + 1] as int) by {
            assert(has_arc(adj, p[i] as int, p[i + 1] as int));
        }
        lemma_walk_cost_nonneg(adj, q);
        let a = p[p.len() - 2] as int;
        let b = p.last() as int;
        assert(has_arc(adj, p[p.len() - 2] as int, p[p.len() - 2 + 1] as int));
        let k = choose|k: int| 0 <= k < adj[a]@.len() && adj[a]@[k].0 == b;
        assert(adj[a]@[k].1 >= 0);
    }
}

/// The least cost of reaching each node from `start`, `None` where it cannot be reached.
fn least_cost_table(adj: &Adjacency, start: usize) -> (r: Vec<Option<i64>>)
    requires
        well_formed_graph(adj@),
        start < adj@.len(),
    ensures
        r@.len() == adj@.len(),
        forall|k: int| 0 <= k < r@.len() ==> match #[trigger] r@[k] {
            Some(c) => is_least_cost(adj@, start as int, k, c as int),
            None => !reachable(adj@, start as int, k),
        },
{
    let found = least_costs_from(adj, start);
    let mut table: Vec<Option<i64>> = Vec::new();
    let mut k: usize = 0;
    while k < adj.len()
        invariant
            k <= adj@.len(),
            table@.len() == k,
            forall|x: int| 0 <= x < k ==> (#[trigger] table@[x]) is None,
        decreases adj@.len() - k,
    {
        table.push(None);
        k += 1;
    }
    proof {
        let p = seq![start];
        assert(is_walk(adj@, p, start as int, start as int));
        assert(walk_cost(adj@, p) == 0);
        assert forall|q: Seq<usize>| is_walk(adj@, q, start as int, start as int) implies 0 <= walk_cost(adj@, q) by {
            lemma_walk_cost_nonneg(adj@, q);
        }
    }
    table.set(start, Some(0));
    let mut i: usize = 0;
    while i < found.len()
        invariant
            well_formed_graph(adj@),
            start < adj@.len(),
            table@.len() == adj@.len(),
            i <= found@.len(),
            forall|x: int| 0 <= x < found@.len() ==> found@[x].0 != start && is_least_cost(adj@, start as int, found@[x].0 as int, found@[x].1 as int),
            forall|t: int| 0 <= t < adj@.len() && t != start && reachable(adj@, start as int, t) ==> exists|x: int|
                0 <= x < found@.len() && found@[x].0 as int == t,
            forall|t: int| 0 <= t < adj@.len() ==> match #[trigger] table@[t] {
                Some(c) => is_least_cost(adj@, start as int, t, c as int),
                None => t != start && forall|x: int| 0 <= x < i ==> found@[x].0 as int != t,
            },
        decreases found@.len() - i,
    {
        let (n, c) = found[i];
        proof {
            assert(is_least_cost(adj@, start as int, found@[i as int].0 as int, found@[i as int].1 as int));
            if (n as int) >= adj@.len() {
                let p = choose|p: Seq<usize>| is_walk(adj@, p, start as int, n as int) && walk_cost(adj@, p) == c;
                if p.len() == 1 {
                    assert(p[0] == start);
                } else {
                    assert(has_arc(adj@, p[p.len() - 2] as int, p[p.len() - 2 + 1] as int));
                    let a = p[p.len() - 2] as int;
                    let k = choose|k: int| 0 <= k < adj@[a]@.len() && adj@[a]@[k].0 == n;
                }
            }
        }
        table.set(n, Some(c));
        i += 1;
    }
    proof {
        assert forall|k: int| 0 <= k < table@.len() implies match #[trigger] table@[k] {
            Some(c) => is_least_cost(adj@, start as int, k, c as int),
            None => !reachable(adj@, start as int, k),
        } by {
            if table@[k] is None {
                if reachable(adj@, start as int, k) {
                    let x = choose|x: int| 0 <= x < found@.len() && found@[x].0 as int == k;
                }
            }
        }
    }
    table
}

/// Node `k` may be claimed: it can be reached from `start`, its flag is `want`,
/// it is not the start unless `include_start`, and nobody has claimed it.
pub open spec fn is_candidate(g: TargetGraph, res: Reservations, start: int, k: int, want: bool, include_start: bool) -> bool {
    &&& 0 <= k < g.adj@.len()
    &&& reachable(g.adj@, start, k)
    &&& g.flags@[k] == want
    &&& (include_start || k != start)
    &&& !res.is_claimed(g.symbols@[k]@)
}

/// `k` is a candidate, and no candidate is cheaper to reach.
pub open spec fn is_closest_candidate(g: TargetGraph, res: Reservations, start: int, k: int, want: bool, include_start: bool) -> bool {
    &&& is_candidate(g, res, start, k, want, include_start)
    &&& forall|j: int, cj: int, ck: int|
        is_candidate(g, res, start, j, want, include_start) && #[trigger] is_least_cost(g.adj@, start, j, cj)
            && #[trigger] is_least_cost(g.adj@, start, k, ck) ==> ck <= cj
}

proof fn lemma_least_cost_unique(adj: Seq<Vec<(usize, i64)>>, s: int, t: int, c1: int, c2: int)
    requires
        is_least_cost(adj, s, t, c1),
        is_least_cost(adj, s, t, c2),
    ensures
        c1 == c2,
{
    let p1 = choose|p: Seq<usize>| is_walk(adj, p, s, t) && walk_cost(adj, p) == c1;
    let p2 = choose|p: Seq<usize>| is_walk(adj, p, s, t) && walk_cost(adj, p) == c2;
}

impl Reservations {
    fn pick(&self, g: &TargetGraph, start: usize, want: bool, include_start: bool) -> (r: Option<usize>)
        requires
            g.wf(),
            start < g.adj@.len(),
        ensures
            match r {
                Some(k) => is_closest_candidate(*g, *self, start as int, k as int, want, include_start),
                None => forall|k: int| !is_candidate(*g, *self, start as int, k, want, include_start),
            },
    {
        let table = least_cost_table(&g.adj, start);
        let mut best: Option<(usize, i64)> = None;
        let mut k: usize = 0;
        while k < table.len()
            invariant
                g.wf(),
                start < g.adj@.len(),
                table@.len() == g.adj@.len(),
                forall|x: int| 0 <= x < table@.len() ==> match #[trigger] table@[x] {
                    Some(c) => is_least_cost(g.adj@, start as int, x, c as int),
                    None => !reachable(g.adj@, start as int, x),
                },
                k <= table@.len(),
                match best {
                    Some((b, bc)) => {
                        &&& b < k
                        &&& is_candidate(*g, *self, start as int, b as int, want, include_start)
                        &&& is_least_cost(g.adj@, start as int, b as int, bc as int)
                        &&& forall|j: int| 0 <= j < k && is_candidate(*g, *self, start as int, j, want, include_start)
                            ==> bc <= (#[trigger] table@[j])->0
                    },
                    None => forall|j: int| 0 <= j < k ==> !is_candidate(*g, *self, start as int, j, want, include_start),
                },
            decreases table@.len() - k,
        {
            let ghost prev = best;
            match table[k] {
                Some(c) => {
                    if g.flags[k] == want && (include_start || k != start) && !self.claimed(&g.symbols[k]) {
                        let better = match best {
                            Some((_b, bc)) => c < bc,
                            None => true,
                        };
                        if better {
                            best = Some((k, c));
                        }
                        proof {
                            let p = choose|p: Seq<usize>| is_walk(g.adj@, p, start as int, k as int) && walk_cost(g.adj@, p) == c;
                            assert(reachable(g.adj@, start as int, k as int));
                        }
                    }
                },
                None => {},
            }
            proof {
                match best {
                    Some((b, bc)) => {
                        assert forall|j: int| 0 <= j < k + 1 && is_candidate(*g, *self, start as int, j, want, include_start)
                            implies bc <= (#[trigger] table@[j])->0 by {
                            if table@[j] is None {
                                assert(!reachable(g.adj@, start as int, j));
                            }
                            match prev {
                                Some((pb, pbc)) => {
                                    if j < k {
                                        assert(pbc <= table@[j]->0);
                                    }
                                },
                                None => {},
                            }
                        }
                    },
                    None => {
                        assert forall|j: int| 0 <= j < k + 1 implies !is_candidate(*g, *self, start as int, j, want, include_start) by {
                            if j == k && table@[j] is None {
                                assert(!reachable(g.adj@, start as int, j));
                            }
                        }
                    },
                }
            }
            k += 1;
        }
        match best {
            Some((b, bc)) => {
                proof {
                    assert forall|j: int, cj: int, ck: int|
                        is_candidate(*g, *self, start as int, j, want, include_start) && #[trigger] is_least_cost(g.adj@, start as int, j, cj)
                            && #[trigger] is_least_cost(g.adj@, start as int, b as int, ck) implies ck <= cj by {
                        lemma_least_cost_unique(g.adj@, start as int, b as int, ck, bc as int);
                        if table@[j] is None {
                            assert(!reachable(g.adj@, start as int, j));
                        } else {
                            lemma_least_cost_unique(g.adj@, start as int, j, cj, table@[j]->0 as int);
                        }
                    }
                }
                Some(b)
            },
            None => None,
        }
    }

    fn claim(&mut self, ship: &String, target: &String)
        requires
            old(self).wf(),
            old(self).claim_of(ship@) is None,
        ensures
            final(self).wf(),
            final(self).claim_of(ship@) == Some(target@),
            forall|s: Seq<char>| s != ship@ ==> #[trigger] final(self).claim_of(s) == old(self).claim_of(s),
            final(self).entries@ == old(self).entries@.push((*ship, *target)),
    {
        let ghost old_entries = self.entries@;
        self.entries.push((ship.clone(), target.clone()));
        proof {
            let n = old_entries.len() as int;
            assert forall|a: int, b: int| 0 <= a < self.entries@.len() && 0 <= b < self.entries@.len() && a != b
                implies self.entries@[a].0@ != self.entries@[b].0@ by {
                if a == n {
                    assert(self.entries@[b] == old_entries[b]);
                } else if b == n {
                    assert(self.entries@[a] == old_entries[a]);
                }
            }
            assert(self.entries@[n].0@ == ship@);
            assert forall|s: Seq<char>| s != ship@ implies #[trigger] self.claim_of(s) == old(self).claim_of(s) by {
                if self.claim_of(s) is Some {
                    let k = choose|k: int| 0 <= k < self.entries@.len() && (#[trigger] self.entries@[k]).0@ == s;
                    assert(old_entries[k] == self.entries@[k]);
                }
                if old(self).claim_of(s) is Some {
                    let k = choose|k: int| 0 <= k < old_entries.len() && (#[trigger] old_entries[k]).0@ == s;
                    assert(old_entries[k] == self.entries@[k]);
                }
            }
        }
    }

    fn get_reservation(&mut self, ship: &String, start: usize, g: &TargetGraph, want: bool, include_start: bool) -> (r: Option<String>)
        requires
            old(self).wf(),
            g.wf(),
            start < g.adj@.len(),
        ensures
            final(self).wf(),
            match old(self).claim_of(ship@) {
                Some(t) => r is Some && r->0@ == t && *final(self) == *old(self),
                None => match r {
                    Some(sym) => {
                        &&& exists|k: int| #[trigger] is_closest_candidate(*g, *old(self), start as int, k, want, include_start)
                            && g.symbols@[k]@ == sym@
                        &&& final(self).claim_of(ship@) == Some(sym@)
                        &&& forall|s: Seq<char>| s != ship@ ==> #[trigger] final(self).claim_of(s) == old(self).claim_of(s)
                    },
                    None => {
                        &&& forall|k: int| !is_candidate(*g, *old(self), start as int, k, want, include_start)
                        &&& *final(self) == *old(self)
                    },
                },
            },
    {
        match self.claim_index(ship) {
            Some(i) => Some(self.entries[i].1.clone()),
            None => match self.pick(g, start, want, include_start) {
                Some(k) => {
                    let target = g.symbols[k].clone();
                    proof {
                        assert(is_closest_candidate(*g, *old(self), start as int, k as int, want, include_start));
                    }
                    self.claim(ship, &target);
                    Some(target)
                },
                None => None,
            },
        }
    }

    /// The jump gate `ship` is to chart: the one it claimed before, else the closest
    /// gate reachable from its gate `start` that is not fully charted and that no other
    /// ship has claimed, which it now claims.
    pub fn get_probe_jumpgate_reservation(&mut self, ship: &String, start: usize, gates: &TargetGraph) -> (r: Option<String>)
        requires
            old(self).wf(),
            gates.wf(),
            start < gates.adj@.len(),
        ensures
            final(self).wf(),
            match old(self).claim_of(ship@) {
                Some(t) => r is Some && r->0@ == t && *final(self) == *old(self),
                None => match r {
                    Some(sym) => {
                        &&& exists|k: int| #[trigger] is_closest_candidate(*gates, *old(self), start as int, k, false, false)
                            && gates.symbols@[k]@ == sym@
                        &&& final(self).claim_of(ship@) == Some(sym@)
                        &&& forall|s: Seq<char>| s != ship@ ==> #[trigger] final(self).claim_of(s) == old(self).claim_of(s)
                    },
                    None => {
                        &&& forall|k: int| !is_candidate(*gates, *old(self), start as int, k, false, false)
                        &&& *final(self) == *old(self)
                    },
                },
            },
    {
        self.get_reservation(ship, start, gates, false, false)
    }

    /// The starter system `ship` is to explore: the one it claimed before, else the
    /// closest starter system (its own system `start` included) that no other ship has
    /// claimed, which it now claims.
    pub fn get_explorer_reservation(&mut self, ship: &String, start: usize, systems: &TargetGraph) -> (r: Option<String>)
        requires
            old(self).wf(),
            systems.wf(),
            start < systems.adj@.len(),
        ensures
            final(self).wf(),
            match old(self).claim_of(ship@) {
                Some(t) => r is Some && r->0@ == t && *final(self) == *old(self),
                None => match r {
                    Some(sym) => {
                        &&& exists|k: int| #[trigger] is_closest_candidate(*systems, *old(self), start as int, k, true, true)
                            && systems.symbols@[k]@ == sym@
                        &&& final(self).claim_of(ship@) == Some(sym@)
                        &&& forall|s: Seq<char>| s != ship@ ==> #[trigger] final(self).claim_of(s) == old(self).claim_of(s)
                    },
                    None => {
                        &&& forall|k: int| !is_candidate(*systems, *old(self), start as int, k, true, true)
                        &&& *final(self) == *old(self)
                    },
                },
            },
    {
        self.get_reservation(ship, start, systems, true, true)
    }
}

} // verus!
