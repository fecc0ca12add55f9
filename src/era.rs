//! The agent's developmental eras and when it moves from one to the next.
use vstd::prelude::*;
use vstd::string::StringExecFns;

verus! {

/// Available credits at which the agent leaves its first era.
pub const ERA_ADVANCE_CREDITS: i64 = 800_000;

#[derive(Clone, Copy, Debug, PartialEq, Eq, Structural)]
pub enum AgentEra {
    /// The agent starts with two ships.
    StartingSystem1,
    /// A credit threshold was met: more ships are bought.
    StartingSystem2,
    /// The jump gate is complete and the capital system is in reach.
    InterSystem1,
    /// The final era.
    InterSystem2,
}

/// The agent's persisted state.
#[derive(Clone, Copy, Debug, PartialEq, Eq, Structural)]
pub struct AgentState {
    pub era: AgentEra,
}

impl AgentEra {
    /// Position of the era in the sequence, the first being 0.
    pub open spec fn order(self) -> int {
        match self {
            AgentEra::StartingSystem1 => 0,
            AgentEra::StartingSystem2 => 1,
            AgentEra::InterSystem1 => 2,
            AgentEra::InterSystem2 => 3,
        }
    }
}

impl Default for AgentState {
    fn default() -> (r: AgentState)
        ensures
            r.era == AgentEra::StartingSystem1,
    {
        AgentState { era: AgentEra::StartingSystem1 }
    }
}

/// The era that follows `era`, given the available credits, if the agent may
/// advance: only the first era advances, once 800 000 credits are available.
pub open spec fn next_era(era: AgentEra, available_credits: int) -> Option<AgentEra> {
    match era {
        AgentEra::StartingSystem1 => if available_credits >= ERA_ADVANCE_CREDITS {
            Some(AgentEra::StartingSystem2)
        } else {
            None
        },
        _ => None,
    }
}

pub fn era_after(era: AgentEra, available_credits: i64) -> (r: Option<AgentEra>)
    ensures
        r == next_era(era, available_credits as int),
{
    match era {
        AgentEra::StartingSystem1 => {
            if available_credits >= ERA_ADVANCE_CREDITS {
                Some(AgentEra::StartingSystem2)
            } else {
                None
            }
        },
        _ => None,
    }
}

/// Where advancing from `era` comes to rest.
pub open spec fn settled_era(era: AgentEra, available_credits: int) -> AgentEra {
    match next_era(era, available_credits) {
        Some(e) => match next_era(e, available_credits) {
            Some(e2) => e2,
            None => e,
        },
        None => era,
    }
}

/// The eras entered, in order, when advancing from `era` until no advance applies.
pub open spec fn eras_entered(era: AgentEra, available_credits: int) -> Seq<AgentEra> {
    match next_era(era, available_credits) {
        Some(e) => match next_era(e, available_credits) {
            Some(e2) => seq![e, e2],
            None => seq![e],
        },
        None => Seq::empty(),
    }
}

/// Advances the agent's era until no further advance applies, or jumps to
/// `era_override` when one is configured. Returns each era entered, in order:
/// each is to be persisted before the next is considered.
pub fn check_era_advance(state: &mut AgentState, era_override: Option<AgentEra>, available_credits: i64) -> (r: Vec<AgentEra>)
    ensures
        match era_override {
            Some(o) => {
                &&& final(state).era == o
                &&& r@ == if o == old(state).era { Seq::<AgentEra>::empty() } else { seq![o] }
            },
            None => {
                &&& final(state).era == settled_era(old(state).era, available_credits as int)
                &&& r@ == eras_entered(old(state).era, available_credits as int)
                &&& final(state).era.order() >= old(state).era.order()
                &&& next_era(final(state).era, available_credits as int) is None
                &&& forall|i: int| 0 <= i < r@.len() ==> (#[trigger] r@[i]).order() > old(state).era.order()
                &&& (r@.len() == 0 <==> final(state).era == old(state).era)
                &&& r@.len() > 0 ==> r@.last() == final(state).era
            },
        },
{
    let mut entered: Vec<AgentEra> = Vec::new();
    match era_override {
        Some(o) => {
            let same = o == state.era;
            if !same {
                state.era = o;
                entered.push(o);
            }
            proof {
                if o == old(state).era {
                    assert(entered@ =~= Seq::<AgentEra>::empty());
                } else {
                    assert(entered@ =~= seq![o]);
                }
            }
            entered
        },
        None => {
            let start = state.era;
            let mut steps: usize = 0;
            loop
                invariant
                    steps <= 2,
                    state.era.order() >= start.order(),
                    start == old(state).era,
                    steps == 0 ==> state.era == start && entered@.len() == 0,
                    steps >= 1 ==> next_era(start, available_credits as int) == Some(entered@[0]),
                    steps == 2 ==> next_era(entered@[0], available_credits as int) == Some(state.era),
                    entered@.len() == steps,
                    steps > 0 ==> entered@.last() == state.era,
                    forall|i: int| 0 <= i < entered@.len() ==> (#[trigger] entered@[i]).order() > start.order(),
                    steps == 1 ==> state.era == entered@[0],
                ensures
                    next_era(state.era, available_credits as int) is None,
                    steps <= 2,
                    state.era.order() >= start.order(),
                    steps == 0 ==> state.era == start && entered@.len() == 0,
                    steps >= 1 ==> next_era(start, available_credits as int) == Some(entered@[0]),
                    steps == 2 ==> next_era(entered@[0], available_credits as int) == Some(state.era),
                    entered@.len() == steps,
                    steps > 0 ==> entered@.last() == state.era,
                    forall|i: int| 0 <= i < entered@.len() ==> (#[trigger] entered@[i]).order() > start.order(),
                    steps == 1 ==> state.era == entered@[0],
                decreases 3 - state.era.order(),
            {
                match era_after(state.era, available_credits) {
                    None => break,
                    Some(next) => {
                        state.era = next;
                        entered.push(next);
                        steps += 1;
                    },
                }
            }
            entered
        },
    }
}

/// Reads an era from its name, as a configuration value writes it.
pub fn parse_era(s: &String) -> (r: Option<AgentEra>)
    ensures
        r == (if s@ == "StartingSystem1"@ {
            Some(AgentEra::StartingSystem1)
        } else if s@ == "StartingSystem2"@ {
            Some(AgentEra::StartingSystem2)
        } else if s@ == "InterSystem1"@ {
            Some(AgentEra::InterSystem1)
        } else if s@ == "InterSystem2"@ {
            Some(AgentEra::InterSystem2)
        } else {
            None
        }),
{
    if *s == String::from_str("StartingSystem1") {
        Some(AgentEra::StartingSystem1)
    } else if *s == String::from_str("StartingSystem2") {
        Some(AgentEra::StartingSystem2)
    } else if *s == String::from_str("InterSystem1") {
        Some(AgentEra::InterSystem1)
    } else if *s == String::from_str("InterSystem2") {
        Some(AgentEra::InterSystem2)
    } else {
        None
    }
}

/// Without an override, the era never moves backwards.
pub proof fn lemma_era_monotonic(era: AgentEra, available_credits: int)
    ensures
        settled_era(era, available_credits).order() >= era.order(),
        next_era(era, available_credits) matches Some(e) ==> e.order() > era.order(),
{
}

} // verus!
