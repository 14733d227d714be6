//! The steps of an attempt to fill a grid, given what is picked at each of them.

use crate::backtracking_search::RANDOM_WORD_WEIGHTS;
use crate::fill_model::{consistent, retains, within, Domains};
use crate::grid_config::{Choice, GridConfig, SlotId};
use crate::search_model::{
    blamed_slot, choosable, decided, domains, lemma_propagation_decided, lemma_propagation_unique,
    propagated, state_wf, with_choice, with_elimination, without_choice, GridState,
};
use vstd::prelude::*;

verus! {

/// Where an attempt stands.
pub struct SearchNode {
    /// The choices that were made and not undone.
    pub choices: Seq<Choice>,
    /// What is left for each slot.
    pub state: GridState,
    /// A choice that turned out to be impossible and is to be ruled out next.
    pub ruling_out: Option<Choice>,
}

/// The option at a position of a slot's list is left.
pub open spec fn is_option_left(config: GridConfig, state: GridState, s: int, i: int) -> bool {
    0 <= i < config.options(s).len() && state[s].eliminations[config.options(s)[i] as int] is None
}

/// The word of the choice is one of the first few that are left for its slot.
pub open spec fn is_candidate(config: GridConfig, state: GridState, choice: Choice) -> bool {
    let s = choice.slot_id as int;
    exists|i: int, earlier: Seq<int>|
        #![trigger is_option_left(config, state, s, i), earlier.len()]
        {
            &&& is_option_left(config, state, s, i)
            &&& config.options(s)[i] == choice.word_id
            &&& earlier.len() < RANDOM_WORD_WEIGHTS@.len()
            &&& forall|k: int|
                0 <= k < i && #[trigger] is_option_left(config, state, s, k) ==> earlier.contains(k)
        }
}

/// The consequences of a change lead from one state to the other.
pub open spec fn leads_to(
    config: GridConfig,
    before: GridState,
    after: GridState,
    blamed: Option<SlotId>,
) -> bool {
    let fixed = decided(config, before);
    &&& state_wf(config, after)
    &&& propagated(before, after, blamed)
    &&& consistent(config, fixed, domains(config, after))
    &&& retains(config, fixed, domains(config, before), domains(config, after))
}

/// The consequences of a change leave a slot without words.
pub open spec fn leads_nowhere(config: GridConfig, before: GridState) -> bool {
    forall|e: Domains| #[trigger]
        consistent(config, decided(config, before), e) ==> !within(e, domains(config, before))
}

/// The choice that was picked in a step.
pub open spec fn picked(after: SearchNode) -> Choice {
    match after.ruling_out {
        Some(choice) => choice,
        None => after.choices.last(),
    }
}

/// A choice is picked. If it has consequences that leave every slot with words, it is made; if not,
/// it is to be ruled out.
pub open spec fn is_pick(config: GridConfig, before: SearchNode, after: SearchNode) -> bool {
    let choice = picked(after);
    let mid = with_choice(before.state, choice);
    &&& choosable(config, before.state, choice)
    &&& is_candidate(config, before.state, choice)
    &&& match after.ruling_out {
        None => after.choices == before.choices.push(choice) && leads_to(
            config,
            mid,
            after.state,
            Some(choice.slot_id),
        ),
        Some(_) => after.choices == before.choices && after.state == before.state
            && leads_nowhere(config, mid),
    }
}

/// A choice is ruled out. If that has consequences that leave every slot with words, the attempt goes
/// on from there; if not, the previous choice is undone, and it is to be ruled out.
pub open spec fn is_refutation(
    config: GridConfig,
    before: SearchNode,
    choice: Choice,
    after: SearchNode,
) -> bool {
    let blamed = blamed_slot(before.choices);
    let mid = with_elimination(before.state, choice, blamed);
    match after.ruling_out {
        None => after.choices == before.choices && leads_to(config, mid, after.state, blamed),
        Some(previous) => {
            &&& leads_nowhere(config, mid)
            &&& before.choices.len() > 0
            &&& previous == before.choices.last()
            &&& after.choices == before.choices.drop_last()
            &&& after.state == without_choice(before.state, previous.slot_id)
        },
    }
}

/// A step of an attempt.
pub open spec fn is_step(config: GridConfig, before: SearchNode, after: SearchNode) -> bool {
    match before.ruling_out {
        None => is_pick(config, before, after),
        Some(choice) => is_refutation(config, before, choice, after),
    }
}

/// The nodes are those of an attempt, step by step.
pub open spec fn is_attempt(config: GridConfig, start: GridState, trace: Seq<SearchNode>) -> bool {
    &&& trace.len() > 0
    &&& trace[0] == (SearchNode { choices: Seq::empty(), state: start, ruling_out: None })
    &&& forall|i: int| 0 < i < trace.len() ==> is_step(config, trace[i - 1], #[trigger] trace[i])
}

/// How often a choice was ruled out.
pub open spec fn refutations(trace: Seq<SearchNode>) -> nat
    decreases trace.len(),
{
    if trace.len() <= 1 {
        0
    } else {
        refutations(trace.drop_last()) + (if trace[trace.len() - 2].ruling_out is Some {
            1nat
        } else {
            0nat
        })
    }
}

/// An attempt goes on by a step.
pub proof fn lemma_attempt_step(
    config: GridConfig,
    start: GridState,
    trace: Seq<SearchNode>,
    node: SearchNode,
)
    requires
        is_attempt(config, start, trace),
        is_step(config, trace.last(), node),
    ensures
        is_attempt(config, start, trace.push(node)),
        refutations(trace.push(node)) == refutations(trace) + (if trace.last().ruling_out is Some {
            1nat
        } else {
            0nat
        }),
{
    let longer = trace.push(node);
    assert(longer.drop_last() =~= trace);
    assert forall|i: int| 0 < i < longer.len() implies is_step(
        config,
        longer[i - 1],
        #[trigger] longer[i],
    ) by {
        if i < trace.len() {
            assert(longer[i] == trace[i]);
            assert(longer[i - 1] == trace[i - 1]);
        }
    }
}

/// A change that leads somewhere leads to one state only.
proof fn lemma_leads_to_unique(
    config: GridConfig,
    before: GridState,
    left: GridState,
    right: GridState,
    blamed: Option<SlotId>,
)
    requires
        config.wf(),
        leads_to(config, before, left, blamed),
        leads_to(config, before, right, blamed),
    ensures
        left == right,
{
    lemma_propagation_unique(config, decided(config, before), before, left, right, blamed);
}

/// A change that leads somewhere does not lead nowhere.
proof fn lemma_leads_somewhere(
    config: GridConfig,
    before: GridState,
    after: GridState,
    blamed: Option<SlotId>,
)
    requires
        config.wf(),
        leads_to(config, before, after, blamed),
    ensures
        !leads_nowhere(config, before),
{
    lemma_propagation_decided(config, decided(config, before), before, after, blamed);
    let e = choose|e: Domains| #[trigger]
        consistent(config, decided(config, before), e) && within(e, domains(config, before));
    assert(within(e, domains(config, before)));
}

/// What is picked determines what a step leads to.
pub proof fn lemma_step_unique(
    config: GridConfig,
    before: SearchNode,
    left: SearchNode,
    right: SearchNode,
)
    requires
        config.wf(),
        is_step(config, before, left),
        is_step(config, before, right),
        before.ruling_out is None ==> picked(left) == picked(right),
    ensures
        left == right,
{
    let (mid, blamed) = match before.ruling_out {
        None => (with_choice(before.state, picked(left)), Some(picked(left).slot_id)),
        Some(choice) => (
            with_elimination(before.state, choice, blamed_slot(before.choices)),
            blamed_slot(before.choices),
        ),
    };
    if left.ruling_out is None {
        lemma_leads_somewhere(config, mid, left.state, blamed);
        lemma_leads_to_unique(config, mid, left.state, right.state, blamed);
    } else if right.ruling_out is None {
        lemma_leads_somewhere(config, mid, right.state, blamed);
    }
}

/// What is picked determines the whole attempt: two attempts that start alike and pick the same
/// choices are the same.
pub proof fn lemma_attempt_unique(
    config: GridConfig,
    start: GridState,
    left: Seq<SearchNode>,
    right: Seq<SearchNode>,
)
    requires
        config.wf(),
        is_attempt(config, start, left),
        is_attempt(config, start, right),
        left.len() == right.len(),
        forall|i: int|
            0 < i < left.len() && left[i - 1].ruling_out is None ==> picked(#[trigger] left[i])
                == picked(right[i]),
    ensures
        left == right,
{
    lemma_same_nodes(config, start, left, right, left.len() - 1);
    assert forall|i: int| 0 <= i < left.len() implies left[i] == right[i] by {
        lemma_same_nodes(config, start, left, right, i);
    }
    assert(left =~= right);
}

/// The nodes of two attempts that pick the same choices are the same.
proof fn lemma_same_nodes(
    config: GridConfig,
    start: GridState,
    left: Seq<SearchNode>,
    right: Seq<SearchNode>,
    i: int,
)
    requires
        config.wf(),
        is_attempt(config, start, left),
        is_attempt(config, start, right),
        left.len() == right.len(),
        forall|i: int|
            0 < i < left.len() && left[i - 1].ruling_out is None ==> picked(#[trigger] left[i])
                == picked(right[i]),
        0 <= i < left.len(),
    ensures
        left[i] == right[i],
    decreases i,
{
    if i > 0 {
        lemma_same_nodes(config, start, left, right, i - 1);
        assert(is_step(config, left[i - 1], left[i]));
        assert(is_step(config, right[i - 1], right[i]));
        lemma_step_unique(config, left[i - 1], left[i], right[i]);
    }
}

} // verus!
