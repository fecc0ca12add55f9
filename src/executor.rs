//! Decisions of the per-ship executor: checking the ship's cargo against the
//! schedule before resuming it, and how much fuel to take on.
use vstd::prelude::*;
use vstd::string::StringExecFns;
use crate::models::{MAX_MARKET_VALUE, ScheduledAction};

verus! {

/// The net change to good `g` made by `actions`.
pub open spec fn good_total(actions: Seq<ScheduledAction>, g: Seq<char>) -> int
    decreases actions.len(),
{
    if actions.len() == 0 {
        0
    } else {
        good_total(actions.drop_last(), g) + match actions.last().action.spec_net_cargo() {
            Some((h, u)) => if h == g { u } else { 0 },
            None => 0,
        }
    }
}

/// The units of `g` in a cargo listing (a later line for the same good wins).
pub open spec fn cargo_units(cargo: Seq<(String, i64)>, g: Seq<char>) -> Option<int>
    decreases cargo.len(),
{
    if cargo.len() == 0 {
        None
    } else if cargo.last().0@ == g {
        Some(cargo.last().1 as int)
    } else {
        cargo_units(cargo.drop_last(), g)
    }
}

/// The cargo expected after `actions`: each good with a nonzero net change.
pub open spec fn expected_units(actions: Seq<ScheduledAction>, g: Seq<char>) -> Option<int> {
    if good_total(actions, g) != 0 { Some(good_total(actions, g)) } else { None }
}

/// The cargo is exactly what `actions` leave.
pub open spec fn cargo_matches(cargo: Seq<(String, i64)>, actions: Seq<ScheduledAction>) -> bool {
    forall|g: Seq<char>| #[trigger] cargo_units(cargo, g) == expected_units(actions, g)
}

/// With any fuel in the cargo set aside, the cargo is exactly what `actions` leave.
pub open spec fn cargo_matches_except_fuel(cargo: Seq<(String, i64)>, actions: Seq<ScheduledAction>) -> bool {
    &&& forall|g: Seq<char>| g != "FUEL"@ ==> #[trigger] cargo_units(cargo, g) == expected_units(actions, g)
    &&& expected_units(actions, "FUEL"@) is None
}

pub open spec fn actions_in_range(actions: Seq<ScheduledAction>) -> bool {
    forall|i: int| 0 <= i < actions.len() ==> (#[trigger] actions[i]).action.units_in_range()
}

/// What to do before resuming a schedule, given the cargo found on board.
#[derive(Clone, Copy, Debug, PartialEq, Eq, Structural)]
pub enum CargoCheck {
    /// The cargo is what the executed actions leave.
    Consistent,
    /// The cargo is what the next action would leave: it was done, skip it.
    SkipNextAction,
    /// Only surplus fuel differs (after a warp): sell it, then go on.
    SellExcessFuel,
    /// The cargo cannot be explained.
    Mismatch,
}

proof fn lemma_total_bounded(actions: Seq<ScheduledAction>, g: Seq<char>)
    requires
        actions_in_range(actions),
    ensures
        -actions.len() * MAX_MARKET_VALUE <= good_total(actions, g) <= actions.len() * MAX_MARKET_VALUE,
    decreases actions.len(),
{
    if actions.len() > 0 {
        assert forall|i: int| 0 <= i < actions.drop_last().len() implies (#[trigger] actions.drop_last()[i]).action.units_in_range() by {
            assert(actions.drop_last()[i] == actions[i]);
        }
        lemma_total_bounded(actions.drop_last(), g);
        assert(actions[actions.len() - 1] == actions.last());
        let n = actions.len() as int;
        assert((n - 1) * MAX_MARKET_VALUE + MAX_MARKET_VALUE == n * MAX_MARKET_VALUE) by (nonlinear_arith);
    }
}

proof fn lemma_untouched_total(actions: Seq<ScheduledAction>, g: Seq<char>)
    requires
        forall|i: int| 0 <= i < actions.len() ==> match (#[trigger] actions[i]).action.spec_net_cargo() {
            Some((h, _u)) => h != g,
            None => true,
        },
    ensures
        good_total(actions, g) == 0,
    decreases actions.len(),
{
    if actions.len() > 0 {
        assert forall|i: int| 0 <= i < actions.drop_last().len() implies match (#[trigger] actions.drop_last()[i]).action.spec_net_cargo() {
            Some((h, _u)) => h != g,
            None => true,
        } by {
            assert(actions.drop_last()[i] == actions[i]);
        }
        lemma_untouched_total(actions.drop_last(), g);
        assert(actions[actions.len() - 1] == actions.last());
    }
}

proof fn lemma_absent_units(cargo: Seq<(String, i64)>, g: Seq<char>)
    requires
        forall|i: int| 0 <= i < cargo.len() ==> (#[trigger] cargo[i]).0@ != g,
    ensures
        cargo_units(cargo, g) is None,
    decreases cargo.len(),
{
    if cargo.len() > 0 {
        assert forall|i: int| 0 <= i < cargo.drop_last().len() implies (#[trigger] cargo.drop_last()[i]).0@ != g by {
            assert(cargo.drop_last()[i] == cargo[i]);
        }
        lemma_absent_units(cargo.drop_last(), g);
        assert(cargo[cargo.len() - 1] == cargo.last());
    }
}

/// The net change to `g` made by the first `upto` actions.
fn total_of(actions: &Vec<ScheduledAction>, upto: usize, g: &String) -> (r: i128)
    requires
        upto <= actions@.len(),
        actions_in_range(actions@),
    ensures
        r == good_total(actions@.take(upto as int), g@),
{
    let mut t: i128 = 0;
    let mut i: usize = 0;
    while i < upto
        invariant
            upto <= actions@.len(),
            actions_in_range(actions@),
            i <= upto,
            t == good_total(actions@.take(i as int), g@),
        decreases upto - i,
    {
        proof {
            assert(actions@.take(i + 1).drop_last() =~= actions@.take(i as int));
            assert(actions@.take(i + 1).last() == actions@[i as int]);
            assert forall|k: int| 0 <= k < actions@.take(i as int).len() implies (#[trigger] actions@.take(i as int)[k]).action.units_in_range() by {
                assert(actions@.take(i as int)[k] == actions@[k]);
            }
            lemma_total_bounded(actions@.take(i as int), g@);
            assert(i * MAX_MARKET_VALUE <= 18_446_744_073_709_551_615 * MAX_MARKET_VALUE) by (nonlinear_arith)
                requires 0 <= i <= 18_446_744_073_709_551_615int;
        }
        match actions[i].action.net_cargo() {
            Some((h, u)) => {
                if h == *g {
                    t = t + u as i128;
                }
            },
            None => {},
        }
        i += 1;
    }
    t
}

/// The units of `g` in the cargo listing.
fn units_of(cargo: &Vec<(String, i64)>, g: &String) -> (r: Option<i64>)
    ensures
        match r {
            Some(u) => cargo_units(cargo@, g@) == Some(u as int),
            None => cargo_units(cargo@, g@) is None,
        },
{
    let mut found: Option<i64> = None;
    let mut i: usize = 0;
    while i < cargo.len()
        invariant
            i <= cargo@.len(),
            match found {
                Some(u) => cargo_units(cargo@.take(i as int), g@) == Some(u as int),
                None => cargo_units(cargo@.take(i as int), g@) is None,
            },
        decreases cargo@.len() - i,
    {
        proof {
            assert(cargo@.take(i + 1).drop_last() =~= cargo@.take(i as int));
        }
        if cargo[i].0 == *g {
            found = Some(cargo[i].1);
        }
        i += 1;
    }
    proof {
        assert(cargo@.take(cargo@.len() as int) =~= cargo@);
    }
    found
}

/// Whether good `g` is as the first `upto` actions leave it.
fn good_agrees(cargo: &Vec<(String, i64)>, actions: &Vec<ScheduledAction>, upto: usize, g: &String) -> (r: bool)
    requires
        upto <= actions@.len(),
        actions_in_range(actions@),
    ensures
        r == (cargo_units(cargo@, g@) == expected_units(actions@.take(upto as int), g@)),
{
    let t = total_of(actions, upto, g);
    match units_of(cargo, g) {
        Some(u) => t != 0 && u as i128 == t,
        None => t == 0,
    }
}

/// Whether the cargo is what the first `upto` actions leave, with fuel set aside
/// when `skip_fuel` holds.
fn cargo_agrees(cargo: &Vec<(String, i64)>, actions: &Vec<ScheduledAction>, upto: usize, skip_fuel: bool) -> (r: bool)
    requires
        upto <= actions@.len(),
        actions_in_range(actions@),
    ensures
        r == if skip_fuel {
            cargo_matches_except_fuel(cargo@, actions@.take(upto as int))
        } else {
            cargo_matches(cargo@, actions@.take(upto as int))
        },
{
    let fuel = String::from_str("FUEL");
    let ghost prefix = actions@.take(upto as int);
    if skip_fuel {
        if total_of(actions, upto, &fuel) != 0 {
            return false;
        }
    }
    let mut i: usize = 0;
    while i < cargo.len()
        invariant
            upto <= actions@.len(),
            actions_in_range(actions@),
            prefix == actions@.take(upto as int),
            fuel@ == "FUEL"@,
            i <= cargo@.len(),
            forall|k: int| 0 <= k < i && !(skip_fuel && (#[trigger] cargo@[k]).0@ == "FUEL"@)
                ==> cargo_units(cargo@, cargo@[k].0@) == expected_units(prefix, cargo@[k].0@),
        decreases cargo@.len() - i,
    {
        if !(skip_fuel && cargo[i].0 == fuel) {
            if !good_agrees(cargo, actions, upto, &cargo[i].0) {
                return false;
            }
        }
        i += 1;
    }
    let mut j: usize = 0;
    while j < upto
        invariant
            upto <= actions@.len(),
            actions_in_range(actions@),
            prefix == actions@.take(upto as int),
            fuel@ == "FUEL"@,
            j <= upto,
            forall|k: int| 0 <= k < j ==> match (#[trigger] prefix[k]).action.spec_net_cargo() {
                Some((h, _u)) => (skip_fuel && h == "FUEL"@) || cargo_units(cargo@, h) == expected_units(prefix, h),
                None => true,
            },
        decreases upto - j,
    {
        proof {
            assert(prefix[j as int] == actions@[j as int]);
        }
        match actions[j].action.net_cargo() {
            Some((h, _u)) => {
                if !(skip_fuel && h == fuel) {
                    if !good_agrees(cargo, actions, upto, &h) {
                        return false;
                    }
                }
            },
            None => {},
        }
        j += 1;
    }
    proof {
        assert forall|g: Seq<char>| !(skip_fuel && g == "FUEL"@) implies #[trigger] cargo_units(cargo@, g) == expected_units(prefix, g) by {
            let in_cargo = exists|k: int| 0 <= k < cargo@.len() && (#[trigger] cargo@[k]).0@ == g;
            let in_actions = exists|k: int| 0 <= k < prefix.len() && match (#[trigger] prefix[k]).action.spec_net_cargo() {
                Some((h, _u)) => h == g,
                None => false,
            };
            if in_cargo {
                let k = choose|k: int| 0 <= k < cargo@.len() && (#[trigger] cargo@[k]).0@ == g;
            } else if in_actions {
                let k = choose|k: int| 0 <= k < prefix.len() && match (#[trigger] prefix[k]).action.spec_net_cargo() {
                    Some((h, _u)) => h == g,
                    None => false,
                };
            } else {
                lemma_absent_units(cargo@, g);
                assert forall|k: int| 0 <= k < prefix.len() implies match (#[trigger] prefix[k]).action.spec_net_cargo() {
                    Some((h, _u)) => h != g,
                    None => true,
                } by {}
                lemma_untouched_total(prefix, g);
            }
        }
    }
    true
}

/// Checks the cargo on board before resuming a schedule at `progress`: the
/// expected cargo is the net change of all actions already executed. The cargo is
/// consistent when it matches; when it matches only after the next action, that
/// action is skipped; when it matches once fuel is set aside, the fuel is sold;
/// anything else is a mismatch.
pub fn check_cargo(schedule: &Vec<ScheduledAction>, progress: usize, cargo: &Vec<(String, i64)>) -> (r: CargoCheck)
    requires
        progress < schedule@.len(),
        actions_in_range(schedule@),
    ensures
        r == if cargo_matches(cargo@, schedule@.take(progress as int)) {
            CargoCheck::Consistent
        } else if cargo_matches(cargo@, schedule@.take(progress + 1)) {
            CargoCheck::SkipNextAction
        } else if cargo_matches_except_fuel(cargo@, schedule@.take(progress as int)) {
            CargoCheck::SellExcessFuel
        } else {
            CargoCheck::Mismatch
        },
{
    let n = schedule.len();
    if cargo_agrees(cargo, schedule, progress, false) {
        CargoCheck::Consistent
    } else if cargo_agrees(cargo, schedule, progress + 1, false) {
        CargoCheck::SkipNextAction
    } else if cargo_agrees(cargo, schedule, progress, true) {
        CargoCheck::SellExcessFuel
    } else {
        CargoCheck::Mismatch
    }
}

/// Largest fuel amount the refuelling arithmetic is made for.
pub const MAX_FUEL: i64 = 1_000_000_000;

/// Fuel units to buy: the missing fuel rounded down to a multiple of 100, or all of
/// it when the rounded amount would not reach `required`; at most `max_units`.
pub open spec fn refuel_amount(current: int, capacity: int, required: int, max_units: int) -> int {
    let missing = capacity - current;
    let rounded = (missing / 100) * 100;
    let units = if rounded + current < required { missing } else { rounded };
    if units < max_units { units } else { max_units }
}

/// How much fuel to take on before a hop that needs `required`: none when the tank
/// already holds it; from cargo, at most 100 per cargo unit of fuel (none without
/// fuel in cargo); from a market, without limit.
pub fn refuel_units(current: i64, capacity: i64, required: i64, from_cargo: bool, cargo_fuel: i64) -> (r: Option<i64>)
    requires
        0 <= current <= capacity <= MAX_FUEL,
        required <= capacity,
        0 <= cargo_fuel <= MAX_FUEL,
    ensures
        current >= required ==> r is None,
        current < required ==> {
            let max_units = if from_cargo { 100 * cargo_fuel } else { i64::MAX as int };
            if max_units == 0 {
                r is None
            } else {
                r == Some(refuel_amount(current as int, capacity as int, required as int, max_units) as i64)
            }
        },
{
    if current >= required {
        return None;
    }
    let max_units: i64 = if from_cargo { 100 * cargo_fuel } else { i64::MAX };
    if max_units == 0 {
        return None;
    }
    let missing = capacity - current;
    let rounded = (missing / 100) * 100;
    let units = if rounded + current < required { missing } else { rounded };
    Some(if units < max_units { units } else { max_units })
}

/// Cargo units of fuel used to put `units` of fuel in the tank: one per started 100.
pub fn cargo_fuel_used(units: i64) -> (r: i64)
    requires
        0 <= units <= MAX_FUEL,
    ensures
        r == (units + 99) / 100,
{
    (units + 99) / 100
}

/// Fuel a ship must hold before flying a hop: the hop's cost, plus, into a
/// destination without a market, the fuel to escape it afterwards.
pub fn hop_required_fuel(fuel_cost: i64, dest_is_market: bool, req_terminal_fuel: i64) -> (r: i64)
    requires
        0 <= fuel_cost <= MAX_FUEL,
        0 <= req_terminal_fuel <= MAX_FUEL,
    ensures
        r == if dest_is_market { fuel_cost as int } else { fuel_cost + req_terminal_fuel },
{
    if dest_is_market { fuel_cost } else { fuel_cost + req_terminal_fuel }
}

/// Where a ship stands in its schedule: `progress` actions are done. The ghost log
/// records, in order, the index of every action executed.
pub struct ScheduleProgress {
    pub len: usize,
    pub progress: usize,
    pub log: Ghost<Seq<int>>,
}

impl ScheduleProgress {
    pub open spec fn wf(self) -> bool {
        &&& self.progress <= self.len
        &&& self.log@.len() == self.progress
        &&& forall|i: int| 0 <= i < self.log@.len() ==> #[trigger] self.log@[i] == i
    }

    /// How many times action `i` was executed.
    pub open spec fn times_executed(self, i: int) -> nat {
        count_of(self.log@, i)
    }

    /// Resumes a schedule of `len` actions whose saved progress is `progress`: the
    /// actions before it were each executed once, before the checkpoint was saved.
    pub fn resume(len: usize, progress: usize) -> (r: ScheduleProgress)
        requires
            progress <= len,
        ensures
            r.wf(),
            r.len == len,
            r.progress == progress,
    {
        ScheduleProgress { len, progress, log: Ghost(Seq::new(progress as nat, |i: int| i)) }
    }

    /// Records that the next action was executed and checkpoints the progress after it.
    pub fn record_executed(&mut self) -> (r: usize)
        requires
            old(self).wf(),
            old(self).progress < old(self).len,
        ensures
            final(self).wf(),
            r == old(self).progress,
            final(self).progress == old(self).progress + 1,
            final(self).len == old(self).len,
    {
        let done = self.progress;
        self.progress = self.progress + 1;
        self.log = Ghost(self.log@.push(done as int));
        done
    }
}

/// How many entries of `log` are `i`.
pub open spec fn count_of(log: Seq<int>, i: int) -> nat
    decreases log.len(),
{
    if log.len() == 0 {
        0
    } else {
        count_of(log.drop_last(), i) + if log.last() == i { 1nat } else { 0nat }
    }
}

proof fn lemma_count_identity(log: Seq<int>, i: int)
    requires
        forall|k: int| 0 <= k < log.len() ==> #[trigger] log[k] == k,
    ensures
        count_of(log, i) == (if 0 <= i < log.len() { 1nat } else { 0nat }),
    decreases log.len(),
{
    if log.len() > 0 {
        let d = log.drop_last();
        assert forall|k: int| 0 <= k < d.len() implies #[trigger] d[k] == k by {
            assert(d[k] == log[k]);
        }
        lemma_count_identity(d, i);
        assert(log.last() == log.len() - 1);
    }
}

/// With progress `p`, every action before `p` has been executed exactly once and
/// no later action has been executed.
pub proof fn lemma_executed_once(s: ScheduleProgress, i: int)
    requires
        s.wf(),
        0 <= i < s.len,
    ensures
        s.times_executed(i) == (if i < s.progress { 1nat } else { 0nat }),
{
    lemma_count_identity(s.log@, i);
}

/// How the executor starts a round of its loop.
#[derive(Clone, Copy, Debug, PartialEq, Eq, Structural)]
pub enum RoundStart {
    /// Resume the saved schedule at this progress.
    Resume(usize),
    /// Sell this much fuel from the cargo, then ask for a new schedule.
    SellFuelThenPlan(i64),
    /// Ask for a new schedule.
    Plan,
}

/// Decides how a round starts: a saved schedule is resumed while its progress has
/// not reached its end; otherwise a new schedule is asked for, after selling any
/// fuel held as cargo (left over from a warp).
pub fn start_round(saved_len: Option<usize>, saved_progress: Option<usize>, cargo_fuel: i64) -> (r: RoundStart)
    ensures
        r == match (saved_len, saved_progress) {
            (Some(n), Some(p)) if p < n => RoundStart::Resume(p),
            _ => if cargo_fuel > 0 { RoundStart::SellFuelThenPlan(cargo_fuel) } else { RoundStart::Plan },
        },
{
    match (saved_len, saved_progress) {
        (Some(n), Some(p)) => {
            if p < n {
                return RoundStart::Resume(p);
            }
        },
        _ => {},
    }
    if cargo_fuel > 0 {
        RoundStart::SellFuelThenPlan(cargo_fuel)
    } else {
        RoundStart::Plan
    }
}

/// What an attempt to extract with a survey came to.
#[derive(Clone, Copy, Debug, PartialEq, Eq, Structural)]
pub enum ExtractOutcome {
    /// The extraction succeeded.
    Extracted,
    /// The survey is out of range or exhausted: drop it from the pool.
    DropSurvey,
    /// Anything else is fatal.
    Fatal,
}

/// Error code of a survey whose target is no longer in range or valid.
pub const SURVEY_OUT_OF_RANGE: i64 = 4221;

/// Error code of an exhausted survey.
pub const SURVEY_EXHAUSTED: i64 = 4224;

/// Classifies the answer to an extraction: HTTP 201 is success; a 400 or 409 whose
/// error code says the survey is out of range or exhausted drops the survey; any
/// other answer is fatal.
pub fn extract_outcome(status: u16, error_code: Option<i64>) -> (r: ExtractOutcome)
    ensures
        r == if status == 201 {
            ExtractOutcome::Extracted
        } else if (status == 400 || status == 409) && (error_code == Some(SURVEY_OUT_OF_RANGE) || error_code == Some(SURVEY_EXHAUSTED)) {
            ExtractOutcome::DropSurvey
        } else {
            ExtractOutcome::Fatal
        },
{
    if status == 201 {
        return ExtractOutcome::Extracted;
    }
    if status == 400 || status == 409 {
        match error_code {
            Some(code) => {
                if code == SURVEY_OUT_OF_RANGE || code == SURVEY_EXHAUSTED {
                    return ExtractOutcome::DropSurvey;
                }
            },
            None => {},
        }
    }
    ExtractOutcome::Fatal
}

} // verus!
