//! The credit ledger: reservations held against the agent's credits, so that
//! purchases never spend what is set aside.
use vstd::prelude::*;

verus! {

/// Largest credit amount the ledger handles.
pub const MAX_CREDITS: i64 = 1_000_000_000_000;

/// Most reservation keys the ledger holds.
pub const MAX_KEYS: usize = 1_000_000;

/// Standing reservation for fuel purchases.
pub const FUEL_RESERVATION: i64 = 10_000;

/// Standing reservation once the home jump gate is complete.
pub const JUMPGATE_RESERVATION: i64 = 500_000;

/// Credits set aside per unit of cargo capacity of a logistics ship.
pub const CREDITS_PER_CARGO_UNIT: i64 = 5000;

/// One reservation key: what it reserves, and the value of goods bought under it.
#[derive(Clone, Debug)]
pub struct LedgerEntry {
    pub key: String,
    pub reserved: i64,
    pub goods_held: i64,
}

/// Last known credits and the reservations against them.
pub struct Ledger {
    pub credits: i64,
    pub entries: Vec<LedgerEntry>,
}

/// What an entry still holds back: its reservation less the value of the goods
/// bought under it, never below zero.
pub open spec fn effective(e: LedgerEntry) -> int {
    if e.reserved - e.goods_held > 0 { e.reserved - e.goods_held } else { 0 }
}

pub open spec fn effective_sum(es: Seq<LedgerEntry>) -> int
    decreases es.len(),
{
    if es.len() == 0 { 0 } else { effective_sum(es.drop_last()) + effective(es.last()) }
}

pub open spec fn reserved_sum(es: Seq<LedgerEntry>) -> int
    decreases es.len(),
{
    if es.len() == 0 { 0 } else { reserved_sum(es.drop_last()) + es.last().reserved }
}

pub open spec fn clamp_credits(x: int) -> int {
    if x > MAX_CREDITS { MAX_CREDITS as int } else if x < -MAX_CREDITS { -MAX_CREDITS } else { x }
}

proof fn lemma_sums_bounded(es: Seq<LedgerEntry>)
    requires
        forall|i: int| 0 <= i < es.len() ==> 0 <= (#[trigger] es[i]).reserved <= MAX_CREDITS && -MAX_CREDITS <= es[i].goods_held <= MAX_CREDITS,
    ensures
        0 <= effective_sum(es) <= es.len() * (2 * MAX_CREDITS),
        0 <= reserved_sum(es) <= es.len() * MAX_CREDITS,
    decreases es.len(),
{
    if es.len() > 0 {
        assert forall|i: int| 0 <= i < es.drop_last().len() implies 0 <= (#[trigger] es.drop_last()[i]).reserved <= MAX_CREDITS && -MAX_CREDITS <= es.drop_last()[i].goods_held <= MAX_CREDITS by {
            assert(es.drop_last()[i] == es[i]);
        }
        lemma_sums_bounded(es.drop_last());
        assert(es[es.len() - 1] == es.last());
        let n = es.len() as int;
        assert((n - 1) * (2 * MAX_CREDITS) + 2 * MAX_CREDITS == n * (2 * MAX_CREDITS)) by (nonlinear_arith);
        assert((n - 1) * MAX_CREDITS + MAX_CREDITS == n * MAX_CREDITS) by (nonlinear_arith);
    }
}

/// Changing entry `i` changes the sums by the difference at `i`.
proof fn lemma_sums_update(es: Seq<LedgerEntry>, i: int, e: LedgerEntry)
    requires
        0 <= i < es.len(),
    ensures
        effective_sum(es.update(i, e)) == effective_sum(es) - effective(es[i]) + effective(e),
        reserved_sum(es.update(i, e)) == reserved_sum(es) - es[i].reserved + e.reserved,
    decreases es.len(),
{
    if i < es.len() - 1 {
        assert(es.update(i, e).drop_last() =~= es.drop_last().update(i, e));
        lemma_sums_update(es.drop_last(), i, e);
    } else {
        assert(es.update(i, e).drop_last() =~= es.drop_last());
    }
}

impl Ledger {
    pub open spec fn wf(self) -> bool {
        &&& -MAX_CREDITS <= self.credits <= MAX_CREDITS
        &&& self.entries@.len() <= MAX_KEYS
        &&& forall|i: int|
            0 <= i < self.entries@.len() ==> 0 <= (#[trigger] self.entries@[i]).reserved <= MAX_CREDITS
                && -MAX_CREDITS <= self.entries@[i].goods_held <= MAX_CREDITS
        &&& forall|i: int, j: int|
            0 <= i < self.entries@.len() && 0 <= j < self.entries@.len() && i != j ==> self.entries@[i].key@ != self.entries@[j].key@
    }

    /// The index of the entry for `key`.
    pub open spec fn index_of(self, key: Seq<char>) -> Option<int> {
        if exists|i: int| 0 <= i < self.entries@.len() && self.entries@[i].key@ == key {
            Some(choose|i: int| 0 <= i < self.entries@.len() && self.entries@[i].key@ == key)
        } else {
            None
        }
    }

    /// What `key` reserves (0 when it has no entry).
    pub open spec fn reserved_for(self, key: Seq<char>) -> int {
        match self.index_of(key) {
            Some(i) => self.entries@[i].reserved as int,
            None => 0,
        }
    }

    pub open spec fn spec_effective_reserved(self) -> int {
        effective_sum(self.entries@)
    }

    pub open spec fn spec_available(self) -> int {
        self.credits - effective_sum(self.entries@)
    }

    pub fn new(credits: i64) -> (r: Ledger)
        requires
            -MAX_CREDITS <= credits <= MAX_CREDITS,
        ensures
            r.wf(),
            r.credits == credits,
            r.entries@.len() == 0,
    {
        Ledger { credits, entries: Vec::new() }
    }

    pub fn credits(&self) -> (r: i64)
        ensures
            r == self.credits,
    {
        self.credits
    }

    pub fn set_credits(&mut self, credits: i64)
        requires
            old(self).wf(),
            -MAX_CREDITS <= credits <= MAX_CREDITS,
        ensures
            final(self).wf(),
            final(self).credits == credits,
            final(self).entries@ == old(self).entries@,
    {
        self.credits = credits;
    }

    fn find(&self, key: &String) -> (r: Option<usize>)
        requires
            self.wf(),
        ensures
            match r {
                Some(i) => self.index_of(key@) == Some(i as int),
                None => self.index_of(key@) is None,
            },
    {
        let mut i: usize = 0;
        while i < self.entries.len()
            invariant
                self.wf(),
                i <= self.entries@.len(),
                forall|k: int| 0 <= k < i ==> (#[trigger] self.entries@[k]).key@ != key@,
            decreases self.entries@.len() - i,
        {
            if self.entries[i].key == *key {
                proof {
                    let j = choose|j: int| 0 <= j < self.entries@.len() && self.entries@[j].key@ == key@;
                    assert(j == i as int);
                }
                return Some(i);
            }
            i += 1;
        }
        None
    }

    /// Whether `key` holds a reservation entry.
    pub fn has_key(&self, key: &String) -> (r: bool)
        requires
            self.wf(),
        ensures
            r == self.index_of(key@) is Some,
    {
        self.find(key).is_some()
    }

    /// Sets the reservation of `key` to `amount`, replacing what it reserved before.
    pub fn reserve_credits(&mut self, key: &String, amount: i64)
        requires
            old(self).wf(),
            0 <= amount <= MAX_CREDITS,
            old(self).index_of(key@) is Some || old(self).entries@.len() < MAX_KEYS,
        ensures
            final(self).wf(),
            final(self).credits == old(self).credits,
            final(self).reserved_for(key@) == amount,
            final(self).index_of(key@) is Some,
            forall|k: Seq<char>| #[trigger] old(self).index_of(k) is Some ==> final(self).index_of(k) is Some,
            forall|k: Seq<char>| k != key@ ==> final(self).reserved_for(k) == old(self).reserved_for(k),
            match old(self).index_of(key@) {
                Some(i) => {
                    &&& final(self).entries@ == old(self).entries@.update(i, LedgerEntry { reserved: amount, ..old(self).entries@[i] })
                    &&& final(self).spec_effective_reserved() == old(self).spec_effective_reserved()
                        - effective(old(self).entries@[i]) + effective(final(self).entries@[i])
                },
                None => {
                    &&& final(self).entries@.len() == old(self).entries@.len() + 1
                    &&& final(self).entries@.drop_last() == old(self).entries@
                    &&& final(self).entries@.last().key@ == key@
                    &&& final(self).entries@.last().reserved == amount
                    &&& final(self).entries@.last().goods_held == 0
                    &&& final(self).spec_effective_reserved() == old(self).spec_effective_reserved() + amount
                },
            },
    {
        match self.find(key) {
            Some(i) => {
                let ghost old_entries = self.entries@;
                let e = LedgerEntry { key: self.entries[i].key.clone(), reserved: amount, goods_held: self.entries[i].goods_held };
                self.entries.set(i, e);
                proof {
                    lemma_sums_update(old_entries, i as int, e);
                    assert(self.entries@ =~= old_entries.update(i as int, LedgerEntry { reserved: amount, ..old_entries[i as int] }));
                    assert forall|k: Seq<char>| k != key@ implies self.reserved_for(k) == old(self).reserved_for(k) by {
                        if old(self).index_of(k) is Some {
                            let j = old(self).index_of(k)->0;
                            assert(self.entries@[j].key@ == k);
                        }
                        if self.index_of(k) is Some {
                            let j = self.index_of(k)->0;
                            assert(old(self).entries@[j].key@ == k);
                        }
                    }
                    assert(self.entries@[i as int].key@ == key@);
                    assert forall|k: Seq<char>| #[trigger] old(self).index_of(k) is Some implies self.index_of(k) is Some by {
                        let j = old(self).index_of(k)->0;
                        assert(self.entries@[j].key@ == k);
                    }
                }
            },
            None => {
                let ghost old_entries = self.entries@;
                self.entries.push(LedgerEntry { key: key.clone(), reserved: amount, goods_held: 0 });
                proof {
                    let n = old_entries.len();
                    assert(self.entries@.drop_last() =~= old_entries);
                    assert(self.entries@[n as int].key@ == key@);
                    assert forall|k: Seq<char>| #[trigger] old(self).index_of(k) is Some implies self.index_of(k) is Some by {
                        let j = old(self).index_of(k)->0;
                        assert(self.entries@[j].key@ == k);
                    }
                    assert forall|k: Seq<char>| k != key@ implies self.reserved_for(k) == old(self).reserved_for(k) by {
                        if old(self).index_of(k) is Some {
                            let j = old(self).index_of(k)->0;
                            assert(self.entries@[j].key@ == k);
                        }
                        if self.index_of(k) is Some {
                            let j = self.index_of(k)->0;
                            assert(j != n);
                            assert(old(self).entries@[j].key@ == k);
                        }
                    }
                }
            },
        }
    }
}

impl Ledger {
    /// What all reservations hold back, net of the goods bought under them.
    pub fn effective_reserved_credits(&self) -> (r: i64)
        requires
            self.wf(),
        ensures
            r == self.spec_effective_reserved(),
    {
        let mut total: i64 = 0;
        let mut i: usize = 0;
        while i < self.entries.len()
            invariant
                self.wf(),
                i <= self.entries@.len(),
                total == effective_sum(self.entries@.take(i as int)),
                0 <= total <= i * (2 * MAX_CREDITS),
            decreases self.entries@.len() - i,
        {
            proof {
                assert(self.entries@.take(i + 1).drop_last() =~= self.entries@.take(i as int));
                assert(self.entries@.take(i + 1).last() == self.entries@[i as int]);
                assert(self.entries@[i as int].reserved <= MAX_CREDITS);
                assert((i + 1) * (2 * MAX_CREDITS) == i * (2 * MAX_CREDITS) + 2 * MAX_CREDITS) by (nonlinear_arith);
                assert(i * (2 * MAX_CREDITS) <= MAX_KEYS * (2 * MAX_CREDITS)) by (nonlinear_arith)
                    requires i <= MAX_KEYS;
            }
            let e = &self.entries[i];
            let net = e.reserved - e.goods_held;
            if net > 0 {
                total = total + net;
            }
            i += 1;
        }
        proof {
            assert(self.entries@.take(self.entries@.len() as int) =~= self.entries@);
        }
        total
    }

    /// Credits less what the reservations hold back.
    pub fn available_credits(&self) -> (r: i64)
        requires
            self.wf(),
        ensures
            r == self.spec_available(),
    {
        proof {
            lemma_sums_bounded(self.entries@);
            assert(self.entries@.len() * (2 * MAX_CREDITS) <= MAX_KEYS * (2 * MAX_CREDITS)) by (nonlinear_arith)
                requires self.entries@.len() <= MAX_KEYS;
        }
        self.credits - self.effective_reserved_credits()
    }

    /// Records that the ship under `key` bought (`units > 0`) or sold (`units < 0`)
    /// goods at `price_per_unit`: the value of goods it holds moves by
    /// `units * price_per_unit` (kept within the ledger's bounds), so that its
    /// reservation counts what was turned into cargo.
    pub fn register_goods_change(&mut self, key: &String, good: &String, units: i64, price_per_unit: i64)
        requires
            old(self).wf(),
            -1_000_000_000 <= units <= 1_000_000_000,
            0 <= price_per_unit <= 1_000_000_000,
            old(self).index_of(key@) is Some || old(self).entries@.len() < MAX_KEYS,
        ensures
            final(self).wf(),
            final(self).credits == old(self).credits,
            match old(self).index_of(key@) {
                Some(i) => final(self).entries@ == old(self).entries@.update(i, LedgerEntry {
                    goods_held: clamp_credits(old(self).entries@[i].goods_held + units * price_per_unit) as i64,
                    ..old(self).entries@[i]
                }),
                None => {
                    &&& final(self).entries@.len() == old(self).entries@.len() + 1
                    &&& final(self).entries@.drop_last() == old(self).entries@
                    &&& final(self).entries@.last().key@ == key@
                    &&& final(self).entries@.last().reserved == 0
                    &&& final(self).entries@.last().goods_held == clamp_credits(units * price_per_unit)
                },
            },
    {
        assert(-1_000_000_000_000_000_000 <= units * price_per_unit <= 1_000_000_000_000_000_000) by (nonlinear_arith)
            requires -1_000_000_000 <= units <= 1_000_000_000, 0 <= price_per_unit <= 1_000_000_000;
        let delta: i64 = units * price_per_unit;
        match self.find(key) {
            Some(i) => {
                let sum: i128 = self.entries[i].goods_held as i128 + delta as i128;
                let held: i64 = if sum > MAX_CREDITS as i128 {
                    MAX_CREDITS
                } else if sum < -MAX_CREDITS as i128 {
                    -MAX_CREDITS
                } else {
                    sum as i64
                };
                let e = LedgerEntry { key: self.entries[i].key.clone(), reserved: self.entries[i].reserved, goods_held: held };
                self.entries.set(i, e);
                proof {
                    assert forall|a: int, b: int|
                        0 <= a < self.entries@.len() && 0 <= b < self.entries@.len() && a != b implies self.entries@[a].key@ != self.entries@[b].key@ by {
                        assert(self.entries@[i as int].key@ == old(self).entries@[i as int].key@);
                    }
                }
            },
            None => {
                let held: i64 = if delta > MAX_CREDITS {
                    MAX_CREDITS
                } else if delta < -MAX_CREDITS {
                    -MAX_CREDITS
                } else {
                    delta
                };
                let ghost old_entries = self.entries@;
                self.entries.push(LedgerEntry { key: key.clone(), reserved: 0, goods_held: held });
                proof {
                    assert(self.entries@.drop_last() =~= old_entries);
                }
            },
        }
    }
}

/// A purchase made while the available credits cover its price and the
/// reservation it brings leaves every reservation covered: after paying `price`
/// and reserving `job_reservation` under a new key, what is reserved does not exceed
/// the credits left.
pub proof fn lemma_purchase_keeps_reservations_covered(before: Ledger, after: Ledger, key: Seq<char>, price: int, job_reservation: int)
    requires
        before.wf(),
        before.index_of(key) is None,
        0 <= job_reservation,
        before.spec_available() >= price + job_reservation,
        after.credits == before.credits - price,
        after.spec_effective_reserved() == before.spec_effective_reserved() + job_reservation,
    ensures
        after.spec_effective_reserved() <= after.credits,
{
}

} // verus!
