//! Grid-filling using a backtracking search algorithm that's mostly based on recommendations in
//! "Adaptive Strategies for Solving Constraint Satisfaction Problems" by Thanasis Balafoutis. In
//! addition to maintaining arc consistency and ordering variables with a variant of the `dom/wdeg`
//! heuristic, we incorporate Balafoutis's "adaptive branching" concept and randomized restarts.

use crate::arc_consistency::{
    establish_arc_consistency, fixed_wf, is_explained, reduced, slot_domains, slots_wf,
    ArcConsistencyFailure,
};
use crate::attempt::{
    is_attempt, is_candidate, is_option_left, leads_nowhere, lemma_attempt_step, picked,
    refutations, SearchNode,
};
use crate::counting::{
    lemma_product_monotone, lemma_tally_same, lemma_tally_witness, product, sum, tally, total,
};
use crate::fill_model::{
    allows, consistent, fillable, is_fill, lemma_fill_is_consistent, only, retains, settled,
    singletons, within, Assignment, Domains,
};
use crate::grid_config::{Choice, GridConfig, SlotId};
use crate::search_model::{
    blamed_slot, blames_choices, choosable, chosen, decided, domains, follows, given_chosen, hopeless, is_left,
    keeps_fills,
    lemma_advance, lemma_narrow, lemma_pending_bound, lemma_retreat, lemma_size,
    lemma_sizes_positive, lemma_stable_elsewhere, lemma_stable_fill, lemma_stable_start,
    lemma_sizes_propagated, lemma_stable_step, lemma_work_advance, lemma_work_narrow, lemma_work_refute, node_ok, others,
    path_ok, pending, propagated, refuted, rules_out_fills, sizes, slot_propagated, stable,
    state_of, state_wf, with_choice, with_elimination, without_choice, work, GridState,
};
use crate::random::{draw, is_drawn, is_seeded, seeded_rng, weight};
use crate::slot::{not_eliminated, SlotState};
use crate::sorting::{is_stable_order, lemma_stable_order_unique, precedes, stable_order};
use crate::types::WordId;
use crate::util::{
    all_words, build_glyph_counts_by_cell, cell_counts_match, clone_counts, counted, counts_of,
    GlyphCountsByCell,
};
use crate::watch::{
    first_seed, is_cut_short, is_deadline, is_due, is_elapsed, is_led, is_look, is_refuted_attempt,
    is_slot_drawn, is_told, is_watched, is_word_at, is_word_drawn, lemma_led_start, lemma_led_step,
    lemma_watched_start, lemma_watched_step, lets_go_on, states, tried_state, weighs,
};
use crate::word_list::WordList;
use rand::rngs::SmallRng;
use vstd::prelude::*;

pub use crate::slot::Slot;

verus! {

/// How many times should we loop before checking whether we've passed our deadline or received
/// a signal to abort?
pub const INTERRUPT_FREQUENCY: usize = 10;

/// How do we weigh the highest-ranked N slots when choosing which one to fill next?
pub const RANDOM_SLOT_WEIGHTS: [u8; 3] = [4, 2, 1];

/// How do we weigh the highest-ranked N words when choosing a word for a given slot?
pub const RANDOM_WORD_WEIGHTS: [u8; 3] = [4, 2, 1];

/// What arc consistency is maintained for.
#[derive(Debug, Clone, Copy)]
pub enum ArcConsistencyMode {
    /// The start of the search.
    Initial,
    /// A word was chosen.
    Choice(Choice),
    /// A word was ruled out, with the slot whose choice is to blame.
    Elimination(Choice, Option<SlotId>),
}

impl ArcConsistencyMode {
    /// The state that arc consistency is to be established for.
    pub open spec fn provisional(self, state: GridState) -> GridState {
        match self {
            ArcConsistencyMode::Initial => state,
            ArcConsistencyMode::Choice(choice) => with_choice(state, choice),
            ArcConsistencyMode::Elimination(choice, blamed) => with_elimination(
                state,
                choice,
                blamed,
            ),
        }
    }

    /// The slot that changed.
    pub open spec fn changed(self) -> Option<SlotId> {
        match self {
            ArcConsistencyMode::Initial => None,
            ArcConsistencyMode::Choice(choice) => Some(choice.slot_id),
            ArcConsistencyMode::Elimination(choice, _) => Some(choice.slot_id),
        }
    }

    /// The slot that eliminations are blamed on.
    pub open spec fn blamed(self) -> Option<SlotId> {
        match self {
            ArcConsistencyMode::Initial => None,
            ArcConsistencyMode::Choice(choice) => Some(choice.slot_id),
            ArcConsistencyMode::Elimination(_, blamed) => blamed,
        }
    }

    /// The slots that nothing is removed from: those whose entries were given at the start, and
    /// those with a single option later on.
    pub open spec fn fixed(self, config: GridConfig, state: GridState) -> Seq<bool> {
        match self {
            ArcConsistencyMode::Initial => chosen(self.provisional(state)),
            _ => decided(config, self.provisional(state)),
        }
    }

    /// The change can be made to the state.
    pub open spec fn applies(self, config: GridConfig, state: GridState) -> bool {
        match self.changed() {
            None => forall|s: int|
                0 <= s < state.len() ==> (#[trigger] state[s]).fixed is Some == config.prefilled(s),
            Some(slot_id) => {
                let word_id = match self {
                    ArcConsistencyMode::Choice(choice) => choice.word_id,
                    ArcConsistencyMode::Elimination(choice, _) => choice.word_id,
                    _ => 0,
                };
                let s = slot_id as int;
                &&& given_chosen(config, state)
                &&& stable(config, domains(config, state))
                &&& s < config.slot_count()
                &&& state[s].fixed is None
                &&& state[s].domain(config.options(s)).contains(word_id)
            },
        }
    }
}

/// The state of a slot after words were ruled out.
pub open spec fn ruled_out(
    slot: SlotState,
    words: Seq<WordId>,
    blamed: Option<SlotId>,
) -> SlotState {
    SlotState {
        eliminations: Seq::new(
            slot.eliminations.len(),
            |w: int|
                if words.contains(w as usize) {
                    Some(blamed)
                } else {
                    slot.eliminations[w]
                },
        ),
        fixed: slot.fixed,
    }
}

/// Record that words are unavailable for a slot.
fn add_eliminations(
    slot: &mut Slot,
    config: &GridConfig,
    words: &Vec<WordId>,
    blamed_slot_id: Option<SlotId>,
)
    requires
        config.wf(),
        old(slot).id < config.slot_count(),
        old(slot).wf(*config, old(slot).id as int),
        words@.no_duplicates(),
        words@.len() > 0 ==> old(slot).fixed_word_id is None,
        forall|i: int|
            0 <= i < words@.len() ==> old(slot)@.domain(
                config.options(old(slot).id as int),
            ).contains(#[trigger] words@[i]),
    ensures
        final(slot).wf(*config, old(slot).id as int),
        final(slot)@ == ruled_out(old(slot)@, words@, blamed_slot_id),
{
    let ghost before = slot@;
    let ghost id = slot.id as int;
    let ghost options = config.options(id);
    let count: usize = slot.eliminations.len();
    let mut i: usize = 0;
    proof {
        assert(slot@ =~= ruled_out(before, words@.take(0), blamed_slot_id));
    }
    while i < words.len()
        invariant
            config.wf(),
            slot.id == id,
            0 <= id < config.slot_count(),
            slot.wf(*config, id),
            before.wf(*config, id),
            count == before.eliminations.len(),
            options == config.options(id),
            words@.no_duplicates(),
            before.fixed is None || words@.len() == 0,
            0 <= i <= words@.len(),
            forall|k: int|
                0 <= k < words@.len() ==> before.domain(options).contains(#[trigger] words@[k]),
            slot@ == ruled_out(before, words@.take(i as int), blamed_slot_id),
        decreases words@.len() - i,
    {
        let word_id: WordId = words[i];
        proof {
            assert(config.slot_wf(id));
            assert(before.domain(options).contains(words@[i as int]));
            let at = options.index_of(word_id);
            assert(options[at] == word_id);
            assert(!words@.take(i as int).contains(word_id)) by {
                if words@.take(i as int).contains(word_id) {
                    let k = words@.take(i as int).index_of(word_id);
                    assert(words@[k] == words@[i as int]);
                }
            }
            assert(slot.eliminations@[word_id as int] is None);
        }
        let ghost was = slot@;
        slot.add_elimination(config, word_id, blamed_slot_id);
        proof {
            let now = ruled_out(before, words@.take(i + 1), blamed_slot_id);
            assert(words@.take(i + 1) =~= words@.take(i as int).push(word_id));
            assert forall|w: int| 0 <= w < was.eliminations.len() implies slot@.eliminations[w]
                == #[trigger] now.eliminations[w] by {
                let earlier = words@.take(i as int);
                assert(earlier.push(word_id)[i as int] == word_id);
                if w as usize != word_id {
                    if earlier.contains(w as usize) {
                        let k = earlier.index_of(w as usize);
                        assert(earlier.push(word_id)[k] == w as usize);
                    }
                    if earlier.push(word_id).contains(w as usize) {
                        let k = earlier.push(word_id).index_of(w as usize);
                        assert(earlier[k] == w as usize);
                    }
                }
            }
            assert(slot@ =~= now);
        }
        i = i + 1;
    }
    assert(words@.take(i as int) =~= words@);
}

/// The slots that nothing is to be removed from.
fn fixed_slots(config: &GridConfig, slots: &Vec<Slot>, mode: &ArcConsistencyMode) -> (fixed: Vec<
    bool,
>)
    requires
        slots_wf(*config, slots@),
    ensures
        fixed@ == match *mode {
            ArcConsistencyMode::Initial => chosen(state_of(slots@)),
            _ => decided(*config, state_of(slots@)),
        },
{
    let initial: bool = match mode {
        ArcConsistencyMode::Initial => true,
        _ => false,
    };
    let ghost expected = match *mode {
        ArcConsistencyMode::Initial => chosen(state_of(slots@)),
        _ => decided(*config, state_of(slots@)),
    };
    let mut fixed: Vec<bool> = Vec::new();
    let mut slot_id: usize = 0;
    while slot_id < slots.len()
        invariant
            slots_wf(*config, slots@),
            initial == (*mode is Initial),
            expected == match *mode {
                ArcConsistencyMode::Initial => chosen(state_of(slots@)),
                _ => decided(*config, state_of(slots@)),
            },
            0 <= slot_id <= slots@.len(),
            fixed@ == expected.take(slot_id as int),
        decreases slots@.len() - slot_id,
    {
        let slot: &Slot = &slots[slot_id];
        assert(slots@[slot_id as int].wf(*config, slot_id as int));
        let is_chosen: bool = slot.fixed_word_id.is_some();
        // When establishing initial consistency, only slots whose contents were provided verbatim
        // should be considered fixed -- other slots might happen to only have one available option,
        // but then that option could be ruled out by crossings.
        //
        // When maintaining consistency later on, we can treat all slots with exactly one option as
        // fixed, because all of their crossings will already have been pruned to only compatible
        // options and we'll already have removed any possible dupe-rule violations from the rest of
        // the grid.
        let remaining_option_count: usize = if is_chosen {
            1
        } else {
            slot.remaining_option_count
        };
        fixed.push(
            if initial {
                is_chosen
            } else {
                remaining_option_count == 1
            },
        );
        slot_id = slot_id + 1;
        assert(fixed@ =~= expected.take(slot_id as int));
    }
    assert(fixed@ =~= expected);
    fixed
}

/// Ruling out words takes exactly these words out of the domains.
proof fn lemma_ruled_out(
    config: GridConfig,
    mid: GridState,
    after: GridState,
    eliminations: Seq<Vec<WordId>>,
    blamed: Option<SlotId>,
)
    requires
        config.wf(),
        state_wf(config, mid),
        state_wf(config, after),
        eliminations.len() == mid.len(),
        forall|s: int|
            0 <= s < mid.len() ==> #[trigger] after[s] == ruled_out(
                mid[s],
                eliminations[s]@,
                blamed,
            ),
        forall|s: int, w: WordId| #[trigger]
            eliminations[s]@.contains(w) && 0 <= s < mid.len() ==> mid[s].domain(
                config.options(s),
            ).contains(w),
        forall|s: int|
            0 <= s < mid.len() && mid[s].fixed is Some ==> (
            #[trigger] eliminations[s])@.len() == 0,
    ensures
        domains(config, after) == reduced(domains(config, mid), eliminations),
        propagated(mid, after, blamed),
{
    assert forall|s: int| 0 <= s < mid.len() implies domains(config, after)[s] =~= reduced(
        domains(config, mid),
        eliminations,
    )[s] by {
        assert(config.slot_wf(s));
        assert(mid[s].wf(config, s));
        assert(after[s] == ruled_out(mid[s], eliminations[s]@, blamed));
        let options = config.options(s);
        assert forall|w: WordId| domains(config, after)[s].contains(w) == reduced(
            domains(config, mid),
            eliminations,
        )[s].contains(w) by {
            if mid[s].fixed is None && options.contains(w) {
                assert(options[options.index_of(w)] == w);
                assert((w as int) as usize == w);
            }
        }
    }
    assert(domains(config, after) =~= reduced(domains(config, mid), eliminations));
    assert forall|s: int| 0 <= s < mid.len() implies slot_propagated(
        #[trigger] mid[s],
        after[s],
        blamed,
    ) by {
        assert(after[s] == ruled_out(mid[s], eliminations[s]@, blamed));
        assert(mid[s].wf(config, s));
        assert(config.slot_wf(s));
        if mid[s].fixed is Some {
            assert(eliminations[s]@.len() == 0);
            assert(after[s] =~= mid[s]);
        }
        assert forall|w: int| 0 <= w < mid[s].eliminations.len() implies (
        #[trigger] after[s].eliminations[w] == mid[s].eliminations[w] || (mid[s].eliminations[w]
            is None && after[s].eliminations[w] == Some(blamed))) by {
            if eliminations[s]@.contains(w as usize) {
                assert(mid[s].domain(config.options(s)).contains(w as usize));
                assert(mid[s].fixed is None) by {
                    assert(eliminations[s]@[eliminations[s]@.index_of(w as usize)] == w as usize);
                }
                assert(config.options(s)[config.options(s).index_of(w as usize)] == w as usize);
                lemma_word_fits(config, s, w);
            }
        }
    }
}

/// Word ids can be represented.
proof fn lemma_word_fits(config: GridConfig, s: int, w: int)
    requires
        config.wf(),
        0 <= s < config.slot_count(),
        0 <= w < config.word_list.words@[config.slot_length(s)]@.len(),
    ensures
        w as usize == w,
{
    let bucket = config.word_list.words@[config.slot_length(s)];
    assert(bucket.len() == bucket@.len());
}

/// A fill that domains allow is made of consistent domains within them.
proof fn lemma_fill_within(config: GridConfig, fixed: Seq<bool>, outer: Domains, words: Assignment)
    requires
        config.wf(),
        is_fill(config, words),
        allows(outer, words),
        fixed.len() == config.slot_count(),
        forall|s: int| 0 <= s < fixed.len() && config.prefilled(s) ==> #[trigger] fixed[s],
    ensures
        consistent(config, fixed, singletons(words)),
        within(singletons(words), outer),
{
    lemma_fill_is_consistent(config, fixed, words);
    assert forall|s: int, w: WordId|
        0 <= s < words.len() && #[trigger] singletons(words)[s].contains(w) implies outer[s].contains(
        w,
    ) by {
        assert(w == words[s]);
    }
}

/// What is left after removing what consistency rules out allows the same fills.
proof fn lemma_keeps_fills(
    config: GridConfig,
    fixed: Seq<bool>,
    mid: GridState,
    after: GridState,
)
    requires
        config.wf(),
        fixed.len() == config.slot_count(),
        forall|s: int| 0 <= s < fixed.len() && config.prefilled(s) ==> #[trigger] fixed[s],
        mid.len() == config.slot_count(),
        after.len() == mid.len(),
        retains(config, fixed, domains(config, mid), domains(config, after)),
    ensures
        keeps_fills(config, mid, after),
{
    reveal(retains);
    assert forall|words: Assignment| #[trigger]
        is_fill(config, words) && allows(domains(config, mid), words) implies allows(
        domains(config, after),
        words,
    ) by {
        lemma_fill_within(config, fixed, domains(config, mid), words);
        let e = singletons(words);
        assert(within(e, domains(config, after)));
        assert forall|s: int| 0 <= s < words.len() implies (
        #[trigger] domains(config, after)[s]).contains(words[s]) by {
            assert(e[s].contains(words[s]));
        }
    }
}

/// The provisional state can be handed to propagation.
proof fn lemma_provisional(config: GridConfig, mode: ArcConsistencyMode, state: GridState)
    requires
        config.wf(),
        state_wf(config, state),
        state_wf(config, mode.provisional(state)),
        mode.applies(config, state),
    ensures
        forall|s: int|
            0 <= s < state.len() && config.prefilled(s) ==> #[trigger] mode.fixed(
                config,
                state,
            )[s],
        mode.changed() matches Some(e) ==> {
            &&& within(domains(config, mode.provisional(state)), domains(config, state))
            &&& forall|s: int|
                0 <= s < state.len() && s != e ==> domains(config, mode.provisional(state))[s]
                    == domains(config, state)[s]
            &&& forall|i: int|
                0 <= i < state.len() && i != e ==> #[trigger] settled(
                    config,
                    mode.fixed(config, state),
                    domains(config, mode.provisional(state)),
                    i,
                )
        },
{
    let mid = mode.provisional(state);
    let fixed = mode.fixed(config, state);
    assert forall|s: int| 0 <= s < state.len() && config.prefilled(s) implies #[trigger] fixed[s] by {
        assert(state[s].fixed is Some);
    }
    if let Some(e) = mode.changed() {
        let start = domains(config, state);
        let changed = domains(config, mid);
        assert forall|s: int, w: WordId|
            0 <= s < changed.len() && #[trigger] changed[s].contains(w) implies start[s].contains(
            w,
        ) by {
            if s == e {
                assert(state[s].wf(config, s));
                assert(config.slot_wf(s));
                if mode is Elimination {
                    assert(config.options(s)[config.options(s).index_of(w)] == w);
                }
            }
        }
        assert forall|i: int| 0 <= i < state.len() && i != e implies #[trigger] settled(
            config,
            fixed,
            changed,
            i,
        ) by {
            lemma_stable_elsewhere(config, fixed, start, changed, e as int, i);
        }
    }
}

/// What propagation leaves is stable.
proof fn lemma_stable_after(
    config: GridConfig,
    mode: ArcConsistencyMode,
    state: GridState,
    after: GridState,
)
    requires
        config.wf(),
        state_wf(config, state),
        state_wf(config, mode.provisional(state)),
        state_wf(config, after),
        mode.applies(config, state),
        within(domains(config, after), domains(config, mode.provisional(state))),
        consistent(config, mode.fixed(config, state), domains(config, after)),
    ensures
        stable(config, domains(config, after)),
{
    let mid = mode.provisional(state);
    let fixed = mode.fixed(config, state);
    lemma_provisional(config, mode, state);
    match mode.changed() {
        None => {
            assert forall|s: int, w: WordId|
                0 <= s < after.len() && #[trigger] domains(config, after)[s].contains(
                    w,
                ) implies config.options(s).contains(w) by {
                assert(after[s].wf(config, s));
                lemma_size(config, after[s], s);
            }
            assert forall|s: int| 0 <= s < fixed.len() implies #[trigger] fixed[s]
                == config.prefilled(s) by {
                assert(state[s].fixed is Some == config.prefilled(s));
            }
            lemma_stable_start(config, fixed, domains(config, after));
        },
        Some(e) => {
            assert forall|s: int| 0 <= s < fixed.len() implies #[trigger] fixed[s] == (exists|
                w: WordId,
            |
                only(domains(config, mid)[s], w)) by {
                assert(mid[s].wf(config, s));
                lemma_size(config, mid[s], s);
                assert(fixed[s] == decided(config, mid)[s]);
                assert(domains(config, mid)[s] == mid[s].domain(config.options(s)));
            }
            lemma_stable_step(
                config,
                fixed,
                domains(config, state),
                domains(config, mid),
                domains(config, after),
                e as int,
            );
        },
    }
}

/// Within the context of a fill attempt, either establish initial arc consistency, propagate the
/// impact of a choice, or propagate the impact of an elimination. If it turns out to be impossible
/// to achieve consistency (a "domain wipeout"), nothing changes.
pub fn maintain_arc_consistency(
    config: &GridConfig,
    slots: &mut Vec<Slot>,
    mode: &ArcConsistencyMode,
) -> (result: Result<(), ArcConsistencyFailure>)
    requires
        config.wf(),
        slots_wf(*config, old(slots)@),
        mode.applies(*config, state_of(old(slots)@)),
    ensures
        slots_wf(*config, final(slots)@),
        result is Ok ==> {
            let before = mode.provisional(state_of(old(slots)@));
            let after = state_of(final(slots)@);
            let fixed = mode.fixed(*config, state_of(old(slots)@));
            &&& propagated(before, after, mode.blamed())
            &&& consistent(*config, fixed, domains(*config, after))
            &&& retains(*config, fixed, domains(*config, before), domains(*config, after))
            &&& stable(*config, domains(*config, after))
            &&& keeps_fills(*config, before, after)
        },
        result is Err ==> {
            let before = mode.provisional(state_of(old(slots)@));
            let fixed = mode.fixed(*config, state_of(old(slots)@));
            &&& state_of(final(slots)@) == state_of(old(slots)@)
            &&& forall|e: Domains| #[trigger]
                consistent(*config, fixed, e) ==> !within(e, domains(*config, before))
            &&& rules_out_fills(*config, before)
        },
        result matches Err(failure) ==> {
            let s = failure.slot_id as int;
            &&& s < config.slot_count()
            &&& failure.eliminated_by_cell@.len() == config.slot_length(s)
            &&& sum(failure.eliminated_by_cell@) + failure.eliminated_as_dupes == sizes(
                *config,
                mode.provisional(state_of(old(slots)@)),
            )[s]
            &&& is_explained(
                *config,
                domains(*config, mode.provisional(state_of(old(slots)@))),
                failure,
            )
            &&& forall|c: int|
                0 <= c < failure.eliminated_by_cell@.len()
                    && config.slot_configs@[s].crossings@[c] is None
                    ==> #[trigger] failure.eliminated_by_cell@[c] == 0
        },
{
    let ghost start = state_of(slots@);
    let ghost mid = mode.provisional(start);
    proof {
        assert forall|s: int| 0 <= s < start.len() implies (#[trigger] start[s]).wf(*config, s) by {
            assert(slots@[s].wf(*config, s));
        }
        if let Some(e) = mode.changed() {
            assert(slots@[e as int].wf(*config, e as int));
        }
    }
    // First, if we're testing a choice or elimination, update the relevant state provisionally.
    match *mode {
        ArcConsistencyMode::Choice(choice) => {
            slots[choice.slot_id].choose_word(config, choice.word_id);
        },
        ArcConsistencyMode::Elimination(choice, blamed_slot_id) => {
            slots[choice.slot_id].add_elimination(config, choice.word_id, blamed_slot_id);
        },
        ArcConsistencyMode::Initial => {},
    }
    proof {
        assert(state_of(slots@) =~= mid);
        assert(slots_wf(*config, slots@));
        assert forall|s: int| 0 <= s < mid.len() implies (#[trigger] mid[s]).wf(*config, s) by {
            assert(slots@[s].wf(*config, s));
        }
        lemma_provisional(*config, *mode, start);
        assert(slot_domains(*config, slots@) =~= domains(*config, mid));
    }
    let fixed: Vec<bool> = fixed_slots(config, slots, mode);
    let changed: Option<SlotId> = match *mode {
        ArcConsistencyMode::Initial => None,
        ArcConsistencyMode::Choice(choice) => Some(choice.slot_id),
        ArcConsistencyMode::Elimination(choice, _) => Some(choice.slot_id),
    };
    let blamed_slot_id: Option<SlotId> = match *mode {
        ArcConsistencyMode::Initial => None,
        ArcConsistencyMode::Choice(choice) => Some(choice.slot_id),
        ArcConsistencyMode::Elimination(_, blamed_slot_id) => blamed_slot_id,
    };
    proof {
        assert(fixed@ == mode.fixed(*config, start));
        assert forall|s: int|
            0 <= s < slots@.len() && (#[trigger] slots@[s]).fixed_word_id is Some implies fixed@[s] by {
            assert(mid[s].fixed is Some);
        }
        assert(fixed_wf(slots@, fixed@));
    }
    match establish_arc_consistency(config, slots, &fixed, changed) {
        // If we succeeded, we just need to apply the new eliminations to each slot and we're done.
        Ok(success) => {
            let ghost eliminations = success.eliminations@;
            let mut slot_id: usize = 0;
            while slot_id < slots.len()
                invariant
                    config.wf(),
                    slots_wf(*config, slots@),
                    eliminations == success.eliminations@,
                    eliminations.len() == slots@.len(),
                    mid.len() == slots@.len(),
                    state_wf(*config, mid),
                    0 <= slot_id <= slots@.len(),
                    forall|s: int|
                        0 <= s < slot_id ==> (#[trigger] slots@[s])@ == ruled_out(
                            mid[s],
                            eliminations[s]@,
                            blamed_slot_id,
                        ),
                    forall|s: int| slot_id <= s < slots@.len() ==> (#[trigger] slots@[s])@ == mid[s],
                    forall|s: int, w: WordId| #[trigger]
                        eliminations[s]@.contains(w) && 0 <= s < mid.len() ==> mid[s].domain(
                            config.options(s),
                        ).contains(w),
                    forall|s: int|
                        0 <= s < mid.len() ==> (#[trigger] eliminations[s])@.no_duplicates(),
                    forall|s: int|
                        0 <= s < mid.len() && mid[s].fixed is Some ==> (
                        #[trigger] eliminations[s])@.len() == 0,
                decreases slots@.len() - slot_id,
            {
                let ghost was = slots@;
                proof {
                    let s = slot_id as int;
                    assert(slots@[s].wf(*config, s));
                    assert(slots@[s]@ == mid[s]);
                    assert(slots@[s]@.fixed == slots@[s].fixed_word_id);
                    let words = success.eliminations@[s]@;
                    assert(words == eliminations[s]@);
                    assert forall|i: int| 0 <= i < words.len() implies mid[s].domain(
                        config.options(s),
                    ).contains(#[trigger] words[i]) by {
                        assert(eliminations[s]@.contains(words[i]));
                    }
                }
                add_eliminations(
                    &mut slots[slot_id],
                    config,
                    &success.eliminations[slot_id],
                    blamed_slot_id,
                );
                proof {
                    assert(slots@ == was.update(slot_id as int, slots@[slot_id as int]));
                    assert forall|s: int| 0 <= s < slots@.len() implies (#[trigger] slots@[s]).wf(
                        *config,
                        s,
                    ) by {
                        assert(was[s].wf(*config, s));
                    }
                    assert forall|s: int| 0 <= s < slots@.len() && s != slot_id implies #[trigger] slots@[s]
                        == was[s] by {}
                }
                slot_id = slot_id + 1;
            }
            proof {
                let after = state_of(slots@);
                assert forall|s: int| 0 <= s < after.len() implies (#[trigger] after[s]).wf(
                    *config,
                    s,
                ) by {
                    assert(slots@[s].wf(*config, s));
                }
                assert forall|s: int| 0 <= s < mid.len() implies #[trigger] after[s] == ruled_out(
                    mid[s],
                    eliminations[s]@,
                    blamed_slot_id,
                ) by {
                    assert(slots@[s]@ == after[s]);
                }
                lemma_ruled_out(*config, mid, after, eliminations, blamed_slot_id);
                lemma_stable_after(*config, *mode, start, after);
                lemma_keeps_fills(*config, fixed@, mid, after);
            }
            Ok(())
        },
        // If we failed, we need to undo any provisional changes we made above.
        Err(failure) => {
            proof {
                assert forall|words: Assignment| #[trigger] is_fill(*config, words) implies !allows(
                    domains(*config, mid),
                    words,
                ) by {
                    if allows(domains(*config, mid), words) {
                        lemma_fill_within(*config, fixed@, domains(*config, mid), words);
                    }
                }
                if let Some(e) = mode.changed() {
                    assert(slots@[e as int].wf(*config, e as int));
                    assert(slots@[e as int]@ == mid[e as int]);
                }
            }
            match *mode {
                ArcConsistencyMode::Choice(choice) => {
                    slots[choice.slot_id].clear_choice();
                    assert(start[choice.slot_id as int].fix(Some(choice.word_id)).fix(None)
                        =~= start[choice.slot_id as int]);
                },
                ArcConsistencyMode::Elimination(choice, blamed) => {
                    proof {
                        let s = choice.slot_id as int;
                        assert(config.slot_wf(s));
                        assert(config.options(s)[config.options(s).index_of(choice.word_id)]
                            == choice.word_id);
                        assert(start[s].wf(*config, s));
                    }
                    slots[choice.slot_id].remove_elimination(config, choice.word_id);
                    assert(start[choice.slot_id as int].eliminate(choice.word_id, blamed).restore(
                        choice.word_id,
                    ) =~= start[choice.slot_id as int]);
                },
                ArcConsistencyMode::Initial => {},
            }
            assert(state_of(slots@) =~= start);
            Err(failure)
        },
    }
}

/// What guides a search without affecting which grids can be filled: a clock, a signal to stop, and
/// the weights by which slots are ranked.
pub trait SearchDriver {
    /// The nanoseconds that have passed on some clock.
    fn now(&self) -> u64;

    /// Has there been a signal that the fill operation should be canceled?
    fn abort_requested(&self) -> bool;

    /// Calculate the weights of all slots, which are the sums of the weights of any crossings they
    /// have where the other slot is still undetermined.
    fn weigh_slots(&mut self, config: &GridConfig, slots: &Vec<Slot>);

    /// Calculate the rank of a slot, a measurement of how good a candidate it is to fill next
    /// (where lower is better).
    fn rank_slot(&self, slots: &Vec<Slot>, slot_id: SlotId) -> u32;

    /// Is the previously-attempted slot close enough to the "best" one that we should stick with it
    /// instead of switching?
    fn stays_with(&self, slots: &Vec<Slot>, last_slot_id: SlotId, best_slot_id: SlotId) -> bool;

    /// Update the crossing weights to reflect the causes of a failure.
    fn record_failure(&mut self, config: &GridConfig, failure: &ArcConsistencyFailure);

    /// How much should the backtrack limit be increased when retrying?
    fn grow_backtrack_limit(&self, max_backtracks: usize) -> usize;
}

/// A struct tracking stats about the filling process. Times are in nanoseconds.
#[derive(Debug, Clone, Copy)]
pub struct Statistics {
    pub states: usize,
    pub backtracks: usize,
    pub restricted_branchings: usize,
    pub retries: usize,
    pub total_time: u64,
    pub try_time: u64,
    pub initial_arc_consistency_time: u64,
    pub choice_arc_consistency_time: u64,
    pub elimination_arc_consistency_time: u64,
}

impl Default for Statistics {
    fn default() -> (statistics: Self)
        ensures
            statistics == (Statistics {
                states: 0,
                backtracks: 0,
                restricted_branchings: 0,
                retries: 0,
                total_time: 0,
                try_time: 0,
                initial_arc_consistency_time: 0,
                choice_arc_consistency_time: 0,
                elimination_arc_consistency_time: 0,
            }),
    {
        Statistics {
            states: 0,
            backtracks: 0,
            restricted_branchings: 0,
            retries: 0,
            total_time: 0,
            try_time: 0,
            initial_arc_consistency_time: 0,
            choice_arc_consistency_time: 0,
            elimination_arc_consistency_time: 0,
        }
    }
}

impl Statistics {
    /// Only the counts of decisions and the times of single steps differ.
    pub open spec fn same_attempt(self, other: Statistics) -> bool {
        &&& self.states == other.states
        &&& self.retries == other.retries
        &&& self.total_time == other.total_time
        &&& self.try_time == other.try_time
        &&& self.initial_arc_consistency_time == other.initial_arc_consistency_time
    }
}

/// The slot still has a choice to be made.
pub open spec fn is_open(slot: Slot) -> bool {
    slot.fixed_word_id is None && slot.remaining_option_count > 1
}

/// The ids are those of the slots that still have a choice to be made, in order.
pub open spec fn are_open_slots(slots: Seq<Slot>, slot_ids: Seq<SlotId>) -> bool {
    &&& forall|i: int, k: int| 0 <= i < k < slot_ids.len() ==> slot_ids[i] < slot_ids[k]
    &&& forall|slot_id: SlotId| #[trigger]
        slot_ids.contains(slot_id) <==> slot_id < slots.len() && is_open(slots[slot_id as int])
}

/// The ids of the slots that still have a choice to be made, in order. If a slot only has one
/// option, whether it was chosen explicitly or implicitly, we can just leave it alone.
pub fn open_slots(slots: &Vec<Slot>) -> (slot_ids: Vec<SlotId>)
    ensures
        are_open_slots(slots@, slot_ids@),
{
    let mut slot_ids: Vec<SlotId> = Vec::new();
    let mut slot_id: usize = 0;
    while slot_id < slots.len()
        invariant
            0 <= slot_id <= slots@.len(),
            forall|i: int| 0 <= i < slot_ids@.len() ==> #[trigger] slot_ids@[i] < slot_id,
            forall|i: int, k: int| 0 <= i < k < slot_ids@.len() ==> slot_ids@[i] < slot_ids@[k],
            forall|s: SlotId| #[trigger]
                slot_ids@.contains(s) <==> s < slot_id && is_open(slots@[s as int]),
        decreases slots@.len() - slot_id,
    {
        let ghost before = slot_ids@;
        let slot: &Slot = &slots[slot_id];
        if slot.fixed_word_id.is_none() && slot.remaining_option_count > 1 {
            slot_ids.push(slot_id);
            proof {
                assert forall|s: SlotId| #[trigger] slot_ids@.contains(s) <==> s < slot_id + 1
                    && is_open(slots@[s as int]) by {
                    assert(slot_ids@[before.len() as int] == slot_id);
                    if before.contains(s) {
                        assert(slot_ids@[before.index_of(s)] == s);
                    }
                    if slot_ids@.contains(s) && s != slot_id {
                        assert(before[slot_ids@.index_of(s)] == s);
                    }
                }
            }
        }
        slot_id = slot_id + 1;
    }
    slot_ids
}

/// The slot is the one at the given position when the candidates are ordered by rank, or the last
/// one if there are fewer. Candidates of equal rank keep their order.
pub open spec fn is_ranked(
    slot_ids: Seq<SlotId>,
    ranks: Seq<i64>,
    position: int,
    slot_id: SlotId,
) -> bool {
    exists|order: Seq<usize>| #[trigger]
        is_stable_order(ranks, order) && slot_id == slot_ids[order[if position < slot_ids.len() {
            position
        } else {
            slot_ids.len() - 1
        }] as int]
}

/// For given ranks and a given position, there is only one slot to take.
pub proof fn lemma_ranked_unique(
    slot_ids: Seq<SlotId>,
    ranks: Seq<i64>,
    position: int,
    left: SlotId,
    right: SlotId,
)
    requires
        is_ranked(slot_ids, ranks, position, left),
        is_ranked(slot_ids, ranks, position, right),
    ensures
        left == right,
{
    let at = if position < slot_ids.len() {
        position
    } else {
        slot_ids.len() - 1
    };
    let first = choose|order: Seq<usize>| #[trigger]
        is_stable_order(ranks, order) && left == slot_ids[order[at] as int];
    let second = choose|order: Seq<usize>| #[trigger]
        is_stable_order(ranks, order) && right == slot_ids[order[at] as int];
    lemma_stable_order_unique(ranks, first, second);
}

/// Order candidates by rank and take the one at the given position, or the last one if there are
/// fewer.
pub fn ranked_slot(slot_ids: &Vec<SlotId>, ranks: &Vec<i64>, position: usize) -> (slot_id: SlotId)
    requires
        slot_ids@.len() > 0,
        ranks@.len() == slot_ids@.len(),
    ensures
        is_ranked(slot_ids@, ranks@, position as int, slot_id),
        slot_ids@.contains(slot_id),
{
    let order: Vec<usize> = stable_order(ranks);
    let at: usize = if position < slot_ids.len() {
        position
    } else {
        slot_ids.len() - 1
    };
    proof {
        assert(order@[at as int] < ranks@.len());
        assert(is_stable_order(ranks@, order@));
        assert(slot_ids@.contains(slot_ids@[order@[at as int] as int]));
    }
    slot_ids[order[at]]
}

/// Decide which slot to fill next, given the open slots with their ranks, the slot to stay with (if
/// there is one), and which of the best ones to take otherwise. Returns whether we stay.
pub fn next_slot(
    slot_ids: &Vec<SlotId>,
    ranks: &Vec<i64>,
    staying: Option<SlotId>,
    position: usize,
) -> (result: (SlotId, bool))
    requires
        slot_ids@.len() > 0,
        ranks@.len() == slot_ids@.len(),
    ensures
        result.1 == staying is Some,
        staying matches Some(slot_id) ==> result.0 == slot_id,
        staying is None ==> is_ranked(slot_ids@, ranks@, position as int, result.0)
            && slot_ids@.contains(result.0),
{
    match staying {
        Some(slot_id) => (slot_id, true),
        None => (ranked_slot(slot_ids, ranks, position), false),
    }
}

/// The ranks are those that the driver gives the slots.
pub open spec fn are_ranks<D: SearchDriver>(
    driver: &D,
    slots: &Vec<Slot>,
    slot_ids: Seq<SlotId>,
    ranks: Seq<i64>,
) -> bool {
    &&& ranks.len() == slot_ids.len()
    &&& forall|i: int|
        0 <= i < ranks.len() ==> 0 <= #[trigger] ranks[i] <= u32::MAX && call_ensures(
            D::rank_slot,
            (driver, slots, slot_ids[i]),
            ranks[i] as u32,
        )
}

/// Whether the driver stays with the previously-attempted slot, given the best one. There is nothing
/// to stay with if that slot is no longer open.
pub open spec fn is_staying<D: SearchDriver>(
    driver: &D,
    slots: &Vec<Slot>,
    slot_ids: Seq<SlotId>,
    last_slot_id: Option<SlotId>,
    best_slot_id: SlotId,
    stays: bool,
) -> bool {
    match last_slot_id {
        Some(last_slot_id) if slot_ids.contains(last_slot_id) => call_ensures(
            D::stays_with,
            (driver, slots, last_slot_id, best_slot_id),
            stays,
        ),
        _ => !stays,
    }
}

/// The slot is the next one to fill: the previously-attempted one if the driver stays with it, or
/// else one of the best few open ones in the driver's ranking, as drawn by the generator.
pub open spec fn is_next<D: SearchDriver>(
    driver: &D,
    slots: &Vec<Slot>,
    last_slot_id: Option<SlotId>,
    rng: SmallRng,
    slot_id: SlotId,
    stays: bool,
) -> bool {
    exists|slot_ids: Seq<SlotId>, ranks: Seq<i64>, best_slot_id: SlotId|
        #![trigger are_ranks(driver, slots, slot_ids, ranks), is_ranked(
            slot_ids,
            ranks,
            0,
            best_slot_id,
        )]
        {
            &&& are_open_slots(slots@, slot_ids)
            &&& are_ranks(driver, slots, slot_ids, ranks)
            &&& is_ranked(slot_ids, ranks, 0, best_slot_id)
            &&& is_staying(driver, slots, slot_ids, last_slot_id, best_slot_id, stays)
            &&& stays ==> last_slot_id == Some(slot_id)
            &&& !stays ==> exists|position: usize|
                0 <= position < RANDOM_SLOT_WEIGHTS@.len() && #[trigger] is_drawn(
                    rng,
                    RANDOM_SLOT_WEIGHTS@,
                    position,
                ) && is_ranked(slot_ids, ranks, position as int, slot_id)
        }
}

/// Identify the next slot we should try to fill, based on a combination of the driver's ranking
/// with an "adaptive branching" strategy that stays on the same slot if the "best" one is close
/// enough in rank. Which of the best few slots it is otherwise depends on chance.
pub fn choose_next_slot<D: SearchDriver>(
    slots: &Vec<Slot>,
    last_slot_id: Option<SlotId>,
    rng: &mut SmallRng,
    driver: &D,
    statistics: &mut Statistics,
) -> (result: Option<SlotId>)
    ensures
        match result {
            Some(slot_id) => {
                &&& slot_id < slots@.len()
                &&& is_open(slots@[slot_id as int])
                &&& {
                    ||| is_next(driver, slots, last_slot_id, *old(rng), slot_id, false) && *final(statistics)
                        == *old(statistics)
                    ||| is_next(driver, slots, last_slot_id, *old(rng), slot_id, true) && *final(statistics)
                        == (Statistics {
                        restricted_branchings: old(statistics).restricted_branchings.wrapping_add(1),
                        ..*old(statistics)
                    })
                }
            },
            None => *final(statistics) == *old(statistics) && forall|s: int|
                0 <= s < slots@.len() ==> !is_open(#[trigger] slots@[s]),
        },
{
    let slot_ids: Vec<SlotId> = open_slots(slots);
    // If there are no slots left to choose from, we're done.
    if slot_ids.len() == 0 {
        proof {
            assert forall|s: int| 0 <= s < slots@.len() implies !is_open(#[trigger] slots@[s]) by {
                if is_open(slots@[s]) {
                    assert(slots.len() == slots@.len());
                    assert(slot_ids@.contains(s as usize));
                }
            }
        }
        return None;
    }
    // Otherwise, rank the remaining slots.
    let mut ranks: Vec<i64> = Vec::new();
    let mut i: usize = 0;
    while i < slot_ids.len()
        invariant
            0 <= i <= slot_ids@.len(),
            ranks@.len() == i,
            forall|k: int|
                0 <= k < i ==> 0 <= #[trigger] ranks@[k] <= u32::MAX && call_ensures(
                    D::rank_slot,
                    (driver, slots, slot_ids@[k]),
                    ranks@[k] as u32,
                ),
        decreases slot_ids@.len() - i,
    {
        let rank: u32 = driver.rank_slot(slots, slot_ids[i]);
        ranks.push(rank as i64);
        assert(ranks@[i as int] as u32 == rank);
        i = i + 1;
    }
    let best_slot_id: SlotId = ranked_slot(&slot_ids, &ranks, 0);
    // If the best slot isn't that much better than the one we're on, stay with the one we're on.
    let mut staying: Option<SlotId> = None;
    if let Some(last_slot_id) = last_slot_id {
        if last_slot_id < slots.len() && slots[last_slot_id].fixed_word_id.is_none()
            && slots[last_slot_id].remaining_option_count > 1 {
            assert(slot_ids@.contains(last_slot_id));
            if driver.stays_with(slots, last_slot_id, best_slot_id) {
                staying = Some(last_slot_id);
            }
        }
    }
    // Otherwise, take one of the best few slots at random.
    let position: usize = if staying.is_some() {
        0
    } else {
        proof {
            lemma_random_weights();
        }
        draw(rng, &RANDOM_SLOT_WEIGHTS)
    };
    let (slot_id, stays): (SlotId, bool) = next_slot(&slot_ids, &ranks, staying, position);
    if stays {
        statistics.restricted_branchings = statistics.restricted_branchings.wrapping_add(1);
    }
    proof {
        assert(are_ranks(driver, slots, slot_ids@, ranks@));
        assert(is_ranked(slot_ids@, ranks@, 0, best_slot_id));
        assert(is_staying(driver, slots, slot_ids@, last_slot_id, best_slot_id, stays));
        assert(is_next(driver, slots, last_slot_id, *old(rng), slot_id, stays));
    }
    Some(slot_id)
}

/// The weights can be sampled.
proof fn lemma_random_weights()
    ensures
        0 < weight(RANDOM_SLOT_WEIGHTS@) <= u8::MAX,
        0 < weight(RANDOM_WORD_WEIGHTS@) <= u8::MAX,
        RANDOM_WORD_WEIGHTS@.len() == 3,
{
    reveal_with_fuel(weight, 4);
}

/// The option at a position is available.
pub open spec fn is_available(config: GridConfig, slot: Slot, i: int) -> bool {
    0 <= i < config.options(slot.id as int).len() && slot.eliminations@[config.options(
        slot.id as int,
    )[i] as int] is None
}

/// Take as many available options of a slot as we have weights in `RANDOM_WORD_WEIGHTS`, from the
/// given position on. Each comes with its position.
pub fn word_candidates(config: &GridConfig, slot: &Slot, starting_word_idx: usize) -> (candidates:
    Vec<(usize, WordId)>)
    requires
        config.wf(),
        slot.id < config.slot_count(),
        slot.wf(*config, slot.id as int),
    ensures
        candidates@.len() <= RANDOM_WORD_WEIGHTS@.len(),
        forall|k: int|
            0 <= k < candidates@.len() ==> {
                let candidate = #[trigger] candidates@[k];
                &&& starting_word_idx <= candidate.0
                &&& is_available(*config, *slot, candidate.0 as int)
                &&& candidate.1 == config.options(slot.id as int)[candidate.0 as int]
            },
        forall|k: int, m: int|
            0 <= k < m < candidates@.len() ==> candidates@[k].0 < candidates@[m].0,
        forall|i: int|
            #![trigger is_available(*config, *slot, i)]
            starting_word_idx <= i && is_available(*config, *slot, i) ==> {
                ||| exists|k: int| 0 <= k < candidates@.len() && (#[trigger] candidates@[k]).0 == i
                ||| candidates@.len() == RANDOM_WORD_WEIGHTS@.len() && candidates@.last().0 < i
            },
{
    let words: &Vec<WordId> = &config.slot_options[slot.id];
    let mut candidates: Vec<(usize, WordId)> = Vec::new();
    let mut word_idx: usize = starting_word_idx;
    proof {
        lemma_random_weights();
        assert(config.slot_wf(slot.id as int));
    }
    while word_idx < words.len() && candidates.len() < RANDOM_WORD_WEIGHTS.len()
        invariant
            config.wf(),
            slot.id < config.slot_count(),
            config.slot_wf(slot.id as int),
            slot.wf(*config, slot.id as int),
            words@ == config.options(slot.id as int),
            RANDOM_WORD_WEIGHTS@.len() == 3,
            candidates@.len() <= 3,
            starting_word_idx <= word_idx,
            forall|k: int|
                0 <= k < candidates@.len() ==> {
                    let candidate = #[trigger] candidates@[k];
                    &&& starting_word_idx <= candidate.0 < word_idx
                    &&& is_available(*config, *slot, candidate.0 as int)
                    &&& candidate.1 == config.options(slot.id as int)[candidate.0 as int]
                },
            forall|k: int, m: int|
                0 <= k < m < candidates@.len() ==> candidates@[k].0 < candidates@[m].0,
            forall|i: int|
                #![trigger is_available(*config, *slot, i)]
                starting_word_idx <= i < word_idx && is_available(*config, *slot, i) ==> exists|
                    k: int,
                |
                    0 <= k < candidates@.len() && (#[trigger] candidates@[k]).0 == i,
        decreases words@.len() - word_idx,
    {
        let word_id: WordId = words[word_idx];
        let ghost before = candidates@;
        if slot.eliminations[word_id].is_none() {
            candidates.push((word_idx, word_id));
        }
        proof {
            assert forall|i: int|
                #![trigger is_available(*config, *slot, i)]
                starting_word_idx <= i < word_idx + 1 && is_available(
                    *config,
                    *slot,
                    i,
                ) implies exists|k: int|
                0 <= k < candidates@.len() && (#[trigger] candidates@[k]).0 == i by {
                if i < word_idx {
                    let k = choose|k: int| 0 <= k < before.len() && (#[trigger] before[k]).0 == i;
                    assert(candidates@[k].0 == i);
                } else {
                    assert(candidates@[before.len() as int].0 == i);
                }
            }
        }
        word_idx = word_idx + 1;
    }
    candidates
}

/// Take the candidate at the given position, or the last one if there are fewer.
pub fn pick_word(candidates: &Vec<(usize, WordId)>, position: usize) -> (word_id: WordId)
    requires
        candidates@.len() > 0,
    ensures
        word_id == candidates@[if position < candidates@.len() {
            position as int
        } else {
            candidates@.len() - 1
        }].1,
{
    if position < candidates.len() {
        candidates[position].1
    } else {
        candidates[candidates.len() - 1].1
    }
}

/// A struct representing the results of a fill operation.
#[derive(Debug)]
pub struct FillSuccess {
    pub statistics: Statistics,
    pub choices: Vec<Choice>,
}

/// Why no fill was found.
#[derive(Debug)]
pub enum FillFailure {
    /// The grid cannot be filled.
    HardFailure,
    /// The deadline was passed.
    Timeout,
    /// There was a signal to stop.
    Abort,
    /// More backtracks than allowed were needed.
    ExceededBacktrackLimit(usize),
}

/// Decide whether a search is cut short, given the number of states so far, the clock, and whether
/// there is a signal to stop. Both are only looked at once in a while.
pub fn interruption(
    states: usize,
    deadline: Option<u64>,
    now: u64,
    abort: bool,
    requested: bool,
) -> (failure: Option<FillFailure>)
    ensures
        failure is None <==> states % INTERRUPT_FREQUENCY != 0 || (!(deadline matches Some(deadline)
            && now > deadline) && !(abort && requested)),
        failure matches Some(failure) ==> match failure {
            FillFailure::Timeout => deadline matches Some(deadline) && now > deadline,
            FillFailure::Abort => abort && requested && !(deadline matches Some(deadline) && now
                > deadline),
            _ => false,
        },
{
    if states % INTERRUPT_FREQUENCY != 0 {
        return None;
    }
    if let Some(deadline) = deadline {
        if now > deadline {
            return Some(FillFailure::Timeout);
        }
    }
    if abort && requested {
        return Some(FillFailure::Abort);
    }
    None
}

/// The time at which a search that starts now has to end. A clock that cannot get there never passes
/// it.
pub fn deadline_after(start: u64, timeout: Option<u64>) -> (deadline: Option<u64>)
    ensures
        match timeout {
            Some(timeout) => deadline == Some(
                if start + timeout <= u64::MAX {
                    (start + timeout) as u64
                } else {
                    u64::MAX
                },
            ),
            None => deadline is None,
        },
{
    match timeout {
        Some(timeout) => Some(start.saturating_add(timeout)),
        None => None,
    }
}

/// The driver's clock has passed a point in time.
pub open spec fn clock_passed<D: SearchDriver>(deadline: int) -> bool {
    exists|driver: D, now: u64| #[trigger]
        call_ensures(D::now, (&driver,), now) && now > deadline
}

/// The driver's clock was found not to have passed a point in time.
pub open spec fn clock_allowed<D: SearchDriver>(deadline: int) -> bool {
    exists|driver: D, now: u64| #[trigger]
        call_ensures(D::now, (&driver,), now) && now <= deadline
}

/// No more than the given time was found to have passed between two looks at the driver's clock.
pub open spec fn time_left<D: SearchDriver>(timeout: u64) -> bool {
    exists|driver: D, start: u64| #[trigger]
        call_ensures(D::now, (&driver,), start) && clock_allowed::<D>(start + timeout)
}

/// The driver was found not to have received a signal to stop.
pub open spec fn was_not_aborted<D: SearchDriver>() -> bool {
    exists|driver: D| #[trigger] call_ensures(D::abort_requested, (&driver,), false)
}

/// More than the given time has passed between two looks at the driver's clock.
pub open spec fn time_passed<D: SearchDriver>(timeout: u64) -> bool {
    exists|driver: D, start: u64| #[trigger]
        call_ensures(D::now, (&driver,), start) && clock_passed::<D>(start + timeout)
}

/// The driver has received a signal to stop.
pub open spec fn was_aborted<D: SearchDriver>() -> bool {
    exists|driver: D| #[trigger] call_ensures(D::abort_requested, (&driver,), true)
}

/// The words of the choices.
pub open spec fn words_of(choices: Seq<Choice>) -> Assignment {
    choices.map_values(|choice: Choice| choice.word_id)
}

/// There is one choice for each slot, in order, and together they are a fill.
pub open spec fn is_complete_fill(config: GridConfig, choices: Seq<Choice>) -> bool {
    &&& forall|i: int| 0 <= i < choices.len() ==> (#[trigger] choices[i]).slot_id == i
    &&& is_fill(config, words_of(choices))
}

/// A search in progress.
struct Search {
    slots: Vec<Slot>,
    /// Slot choices made so far in the process.
    choices: Vec<Choice>,
    /// The slot that was tried last, and the position of the first option that may be available
    /// for it.
    last_slot_id: Option<SlotId>,
    last_starting_word_idx: usize,
    statistics: Statistics,
    /// The state before each choice.
    history: Ghost<Seq<GridState>>,
    /// The steps so far.
    trace: Ghost<Seq<SearchNode>>,
}

impl Search {
    /// The state of the slots.
    spec fn state(&self) -> GridState {
        state_of(self.slots@)
    }

    /// The combinations of words that may still be gone through.
    spec fn work(&self, config: GridConfig) -> int {
        work(config, self.history@, self.choices@, self.state())
    }

    /// The words that the search started with.
    spec fn base(&self, config: GridConfig) -> Domains {
        domains(config, self.start())
    }

    /// The state that the search started with.
    spec fn start(&self) -> GridState {
        self.trace@[0].state
    }

    /// Where the search stands.
    spec fn node(&self, ruling_out: Option<Choice>) -> SearchNode {
        SearchNode { choices: self.choices@, state: self.state(), ruling_out }
    }

    /// The steps so far lead to where the search stands.
    spec fn is_traced(&self, config: GridConfig, ruling_out: Option<Choice>) -> bool {
        &&& is_attempt(config, self.start(), self.trace@)
        &&& self.trace@.last() == self.node(ruling_out)
    }

    /// The choices lead to the state, and the options before the last position are unavailable.
    spec fn ok(&self, config: GridConfig) -> bool {
        &&& slots_wf(config, self.slots@)
        &&& path_ok(config, self.base(config), self.history@, self.choices@, self.state())
        &&& self.last_slot_id matches Some(slot_id) ==> {
            &&& slot_id < config.slot_count()
            &&& forall|i: int|
                0 <= i < self.last_starting_word_idx ==> !is_available(
                    config,
                    self.slots@[slot_id as int],
                    i,
                )
        }
    }

    /// Options that were unavailable stay so while more is ruled out.
    proof fn lemma_position(
        config: GridConfig,
        before: GridState,
        mid: GridState,
        after: Seq<Slot>,
        blamed: Option<SlotId>,
        slot_id: SlotId,
        old_slots: Seq<Slot>,
        i: int,
    )
        requires
            config.wf(),
            slots_wf(config, old_slots),
            slots_wf(config, after),
            before == state_of(old_slots),
            mid.len() == before.len(),
            forall|s: int, w: int|
                0 <= s < before.len() && 0 <= w < before[s].eliminations.len()
                    && before[s].eliminations[w] is Some
                    ==> #[trigger] mid[s].eliminations[w] is Some,
            forall|s: int|
                0 <= s < before.len() ==> (#[trigger] mid[s]).eliminations.len()
                    == before[s].eliminations.len(),
            propagated(mid, state_of(after), blamed),
            slot_id < config.slot_count(),
            !is_available(config, old_slots[slot_id as int], i),
        ensures
            !is_available(config, after[slot_id as int], i),
    {
        let s = slot_id as int;
        assert(old_slots[s].wf(config, s));
        assert(after[s].wf(config, s));
        assert(config.slot_wf(s));
        if is_available(config, after[s], i) {
            let w = config.options(s)[i] as int;
            assert(before[s].eliminations[w] is Some);
            assert(mid[s].eliminations[w] is Some);
            assert(slot_propagated(mid[s], state_of(after)[s], blamed));
            assert(state_of(after)[s].eliminations[w] is Some);
        }
    }

    /// Try to propagate the implications of a choice to the rest of the grid. If that fails, the
    /// choice is refuted.
    fn advance<D: SearchDriver>(&mut self, config: &GridConfig, choice: Choice, driver: &mut D) -> (
    success: bool)
        requires
            config.wf(),
            old(self).ok(*config),
            old(self).is_traced(*config, None),
            choosable(*config, old(self).state(), choice),
            is_candidate(*config, old(self).state(), choice),
        ensures
            final(self).ok(*config),
            final(self).start() == old(self).start(),
            final(self).is_traced(
                *config,
                if success {
                    None
                } else {
                    Some(choice)
                },
            ),
            refutations(final(self).trace@) == refutations(old(self).trace@),
            final(self).trace@.drop_last() == old(self).trace@,
            success ==> final(self).choices@ == old(self).choices@.push(choice),
            final(self).statistics.backtracks == old(self).statistics.backtracks,
            final(self).statistics.same_attempt(old(self).statistics),
            success ==> final(self).work(*config) <= old(self).work(*config) && total(
                sizes(*config, final(self).state()),
            ) < total(sizes(*config, old(self).state())),
            !success ==> {
                &&& final(self).choices@ == old(self).choices@
                &&& final(self).history@ == old(self).history@
                &&& final(self).state() == old(self).state()
                &&& refuted(*config, final(self).base(*config), final(self).choices@, choice)
                &&& is_told::<D>(*config, with_choice(old(self).state(), choice))
            },
    {
        let ghost before = self.state();
        let ghost old_slots = self.slots@;
        let start: u64 = driver.now();
        proof {
            assert(node_ok(*config, self.base(*config), self.choices@, before));
        }
        let mode: ArcConsistencyMode = ArcConsistencyMode::Choice(choice);
        let result = maintain_arc_consistency(config, &mut self.slots, &mode);
        let success: bool = match &result {
            Ok(_) => true,
            Err(failure) => {
                driver.record_failure(config, failure);
                false
            },
        };
        let elapsed: u64 = driver.now().saturating_sub(start);
        self.statistics.choice_arc_consistency_time =
            self.statistics.choice_arc_consistency_time.saturating_add(elapsed);
        if success {
            let ghost after = self.state();
            proof {
                let mid = with_choice(before, choice);
                lemma_state_wf(*config, self.slots@);
                lemma_advance(
                    *config,
                    self.base(*config),
                    self.history@,
                    self.choices@,
                    before,
                    choice,
                    after,
                );
                lemma_work_advance(*config, self.history@, self.choices@, before, choice, after);
                if let Some(slot_id) = self.last_slot_id {
                    assert forall|i: int| 0 <= i < self.last_starting_word_idx implies !is_available(
                        *config,
                        self.slots@[slot_id as int],
                        i,
                    ) by {
                        assert(!is_available(*config, old_slots[slot_id as int], i));
                        Search::lemma_position(
                            *config,
                            before,
                            mid,
                            self.slots@,
                            Some(choice.slot_id),
                            slot_id,
                            old_slots,
                            i,
                        );
                    }
                }
            }
            self.choices.push(choice);
            self.history = Ghost(self.history@.push(before));
            let ghost node = self.node(None);
            proof {
                assert(picked(node) == choice);
                assert(node.choices =~= self.trace@.last().choices.push(choice));
                lemma_attempt_step(*config, self.start(), self.trace@, node);
            }
            self.trace = Ghost(self.trace@.push(node));
        } else {
            let ghost node = self.node(Some(choice));
            proof {
                assert(self.state() == before);
                assert(mode.provisional(before) == with_choice(before, choice));
                assert(mode.fixed(*config, before) == decided(*config, with_choice(before, choice)));
                assert(leads_nowhere(*config, with_choice(before, choice)));
                assert(picked(node) == choice);
                lemma_attempt_step(*config, self.start(), self.trace@, node);
                assert forall|words: Assignment| #[trigger]
                    is_left(*config, self.base(*config), words) && follows(words, self.choices@) implies words[choice.slot_id as int]
                    != choice.word_id by {
                    assert(allows(domains(*config, before), words));
                    if words[choice.slot_id as int] == choice.word_id {
                        let mid = with_choice(before, choice);
                        assert forall|s: int| 0 <= s < words.len() implies (
                        #[trigger] domains(*config, mid)[s]).contains(words[s]) by {
                            assert(domains(*config, before)[s].contains(words[s]));
                        }
                        assert(allows(domains(*config, mid), words));
                    }
                }
                if let Some(slot_id) = self.last_slot_id {
                    assert forall|i: int| 0 <= i < self.last_starting_word_idx implies !is_available(
                        *config,
                        self.slots@[slot_id as int],
                        i,
                    ) by {
                        assert(!is_available(*config, old_slots[slot_id as int], i));
                        lemma_same_slot(*config, old_slots, self.slots@, slot_id as int);
                    }
                }
            }
            let ghost base = self.base(*config);
            assert(refuted(*config, base, self.choices@, choice));
            self.trace = Ghost(self.trace@.push(node));
            assert(self.base(*config) == base);
        }
        assert(self.trace@.drop_last() =~= old(self).trace@);
        success
    }
}

/// Undo a choice along with the eliminations that it is to blame for.
pub fn undo_choice(config: &GridConfig, slots: &mut Vec<Slot>, slot_id: SlotId)
    requires
        config.wf(),
        slots_wf(*config, old(slots)@),
        slot_id < config.slot_count(),
    ensures
        slots_wf(*config, final(slots)@),
        state_of(final(slots)@) == without_choice(state_of(old(slots)@), slot_id),
{
    let ghost before = state_of(slots@);
    let ghost expected = without_choice(before, slot_id);
    proof {
        assert(slots@[slot_id as int].wf(*config, slot_id as int));
    }
    slots[slot_id].clear_choice();
    let mut s: usize = 0;
    while s < slots.len()
        invariant
            config.wf(),
            slots_wf(*config, slots@),
            slot_id < slots@.len(),
            before.len() == slots@.len(),
            expected == without_choice(before, slot_id),
            0 <= s <= slots@.len(),
            slots@[slot_id as int]@ == expected[slot_id as int],
            forall|t: int| 0 <= t < s ==> (#[trigger] slots@[t])@ == expected[t],
            forall|t: int| s <= t < slots@.len() && t != slot_id ==> (#[trigger] slots@[t])@ == before[t],
        decreases slots@.len() - s,
    {
        let ghost was = slots@;
        proof {
            assert(slots@[s as int].wf(*config, s as int));
        }
        if slots[s].id != slot_id && slots[s].fixed_word_id.is_none() {
            assert(slots@[s as int]@ == before[s as int]);
            slots[s].clear_eliminations(config, slot_id);
            assert(slots@ == was.update(s as int, slots@[s as int]));
        }
        proof {
            assert forall|t: int| 0 <= t < slots@.len() implies (#[trigger] slots@[t]).wf(
                *config,
                t,
            ) by {
                assert(was[t].wf(*config, t));
            }
            assert forall|t: int| 0 <= t < slots@.len() && t != s implies #[trigger] slots@[t]
                == was[t] by {}
            assert(slots@[s as int]@ == expected[s as int]);
        }
        s = s + 1;
    }
    proof {
        assert forall|t: int| 0 <= t < slots@.len() implies state_of(slots@)[t] == expected[t] by {
            assert(slots@[t]@ == expected[t]);
        }
        assert(state_of(slots@) =~= expected);
    }
}

/// There is an attempt in which choices are ruled out this often, and which was watched until then.
pub open spec fn is_attempt_with<D: SearchDriver>(
    config: GridConfig,
    start: GridState,
    deadline: Option<u64>,
    seed: u64,
    n: nat,
) -> bool {
    exists|trace: Seq<SearchNode>| #[trigger]
        is_attempt(config, start, trace) && is_watched::<D>(config, deadline, trace.drop_last())
            && is_led::<D>(config, seed, trace) && refutations(trace) == n
}

impl Search {
    /// Record that a refuted choice is unavailable and propagate the implications of that. If that
    /// fails, the previous choice is refuted as well; repeat with that one.
    fn backtrack<D: SearchDriver>(
        &mut self,
        config: &GridConfig,
        choice: Choice,
        max_backtracks: usize,
        driver: &mut D,
        Ghost(limit): Ghost<int>,
        Ghost(deadline): Ghost<Option<u64>>,
        Ghost(seed): Ghost<u64>,
    ) -> (result: Result<(), FillFailure>)
        requires
            config.wf(),
            old(self).ok(*config),
            old(self).is_traced(*config, Some(choice)),
            is_watched::<D>(*config, deadline, old(self).trace@),
            is_led::<D>(*config, seed, old(self).trace@),
            old(self).trace@.len() > 1,
            choosable(*config, old(self).state(), choice),
            refuted(*config, old(self).base(*config), old(self).choices@, choice),
            old(self).statistics.backtracks <= max_backtracks,
            max_backtracks < usize::MAX ==> refutations(old(self).trace@)
                == old(self).statistics.backtracks,
            old(self).work(*config) + old(self).statistics.backtracks <= limit,
        ensures
            match result {
                Ok(_) => {
                    &&& final(self).ok(*config)
                    &&& final(self).start() == old(self).start()
                    &&& final(self).is_traced(*config, None)
                    &&& is_watched::<D>(*config, deadline, final(self).trace@.drop_last())
                    &&& is_led::<D>(*config, seed, final(self).trace@)
                    &&& final(self).trace@.len() > 1
                    &&& states(final(self).trace@) == states(old(self).trace@) + 1
                    &&& max_backtracks < usize::MAX ==> refutations(final(self).trace@)
                        == final(self).statistics.backtracks
                    &&& final(self).work(*config) < old(self).work(*config)
                    &&& final(self).work(*config) + final(self).statistics.backtracks <= limit
                    &&& final(self).statistics.backtracks <= max_backtracks
                    &&& final(self).statistics.same_attempt(old(self).statistics)
                },
                Err(FillFailure::HardFailure) => {
                    &&& rules_out_fills(*config, old(self).start())
                    &&& is_refuted_attempt::<D>(*config, old(self).start(), deadline, seed)
                },
                Err(FillFailure::ExceededBacktrackLimit(backtracks)) => {
                    &&& backtracks == max_backtracks + 1
                    &&& backtracks <= limit
                    &&& is_attempt_with::<D>(
                        *config,
                        old(self).start(),
                        deadline,
                        seed,
                        backtracks as nat,
                    )
                },
                Err(_) => false,
            },
    {
        let mut undoing_choice: Choice = choice;
        let ghost initial_work = self.work(*config);
        proof {
            lemma_work_refute(*config, self.history@, self.choices@, self.state(), choice);
        }
        loop
            invariant
                config.wf(),
                self.ok(*config),
                self.start() == old(self).start(),
                self.is_traced(*config, Some(undoing_choice)),
                is_watched::<D>(*config, deadline, self.trace@),
                is_led::<D>(*config, seed, self.trace@),
                self.trace@.len() > 1,
                states(self.trace@) == states(old(self).trace@),
                self.statistics.backtracks <= max_backtracks,
                max_backtracks < usize::MAX ==> refutations(self.trace@)
                    == self.statistics.backtracks,
                choosable(*config, self.state(), undoing_choice),
                refuted(*config, self.base(*config), self.choices@, undoing_choice),
                pending(*config, self.history@, self.choices@) + others(
                    *config,
                    self.state(),
                    undoing_choice,
                ) + 1 + self.statistics.backtracks <= limit,
                pending(*config, self.history@, self.choices@) + others(
                    *config,
                    self.state(),
                    undoing_choice,
                ) < initial_work,
                initial_work == old(self).work(*config),
                self.statistics.same_attempt(old(self).statistics),
            decreases self.choices@.len(),
        {
            let ghost before = self.state();
            let ghost old_slots = self.slots@;
            self.statistics.backtracks = self.statistics.backtracks.wrapping_add(1);
            let blamed_slot_id: Option<SlotId> = if self.choices.len() == 0 {
                None
            } else {
                Some(self.choices[self.choices.len() - 1].slot_id)
            };
            let start: u64 = driver.now();
            let mode: ArcConsistencyMode = ArcConsistencyMode::Elimination(
                undoing_choice,
                blamed_slot_id,
            );
            let ghost mid = with_elimination(before, undoing_choice, blamed_slot_id);
            proof {
                let s = undoing_choice.slot_id as int;
                let options = config.options(s);
                assert(node_ok(*config, self.base(*config), self.choices@, before));
                assert(before[s].wf(*config, s));
                assert(config.slot_wf(s));
                assert(options[options.index_of(undoing_choice.word_id)] == undoing_choice.word_id);
                assert forall|w: WordId| #[trigger] options.contains(w) implies w
                    < before[s].eliminations.len() by {
                    assert(options[options.index_of(w)] == w);
                }
            }
            let result = maintain_arc_consistency(config, &mut self.slots, &mode);
            let success: bool = match &result {
                Ok(_) => true,
                Err(failure) => {
                    driver.record_failure(config, failure);
                    false
                },
            };
            let elapsed: u64 = driver.now().saturating_sub(start);
            self.statistics.elimination_arc_consistency_time =
                self.statistics.elimination_arc_consistency_time.saturating_add(elapsed);
            if success {
                // If we successfully propagated constraints for this elimination, we're done
                // backtracking, unless that took us past our backtrack limit.
                proof {
                    let after = self.state();
                    lemma_state_wf(*config, self.slots@);
                    lemma_narrow(
                        *config,
                        self.base(*config),
                        self.history@,
                        self.choices@,
                        before,
                        undoing_choice,
                        after,
                    );
                    lemma_work_narrow(
                        *config,
                        self.history@,
                        self.choices@,
                        before,
                        undoing_choice,
                        blamed_slot_id,
                        after,
                    );
                    if let Some(slot_id) = self.last_slot_id {
                        assert forall|i: int| 0 <= i < self.last_starting_word_idx implies !is_available(
                            *config,
                            self.slots@[slot_id as int],
                            i,
                        ) by {
                            assert(!is_available(*config, old_slots[slot_id as int], i));
                            Search::lemma_position(
                                *config,
                                before,
                                mid,
                                self.slots@,
                                blamed_slot_id,
                                slot_id,
                                old_slots,
                                i,
                            );
                        }
                    }
                    lemma_pending_bound(
                        *config,
                        self.base(*config),
                        self.history@,
                        self.choices@,
                        self.state(),
                    );
                }
                let ghost node = self.node(None);
                proof {
                    lemma_attempt_step(*config, self.start(), self.trace@, node);
                    assert(self.trace@.push(node).drop_last() =~= self.trace@);
                    lemma_led_step::<D>(*config, seed, self.trace@, node);
                }
                self.trace = Ghost(self.trace@.push(node));
                if self.statistics.backtracks > max_backtracks {
                    return Err(FillFailure::ExceededBacktrackLimit(self.statistics.backtracks));
                }
                return Ok(());
            }
            // If we didn't, it means the previous choice is also no longer viable, because we've
            // now proven that given all previous choices, neither making this choice nor ruling it
            // out is possible. We should undo the impact of that choice and then see if it's
            // possible to propagate the opposite of it.
            proof {
                assert(hopeless(*config, self.base(*config), self.choices@)) by {
                    assert forall|words: Assignment| #[trigger] is_left(
                        *config,
                        self.base(*config),
                        words,
                    ) implies !follows(words, self.choices@) by {
                        if follows(words, self.choices@) {
                            assert(allows(domains(*config, before), words));
                            assert forall|s: int| 0 <= s < words.len() implies (
                            #[trigger] domains(*config, mid)[s]).contains(words[s]) by {
                                assert(domains(*config, before)[s].contains(words[s]));
                            }
                            assert(allows(domains(*config, mid), words));
                        }
                    }
                }
            }
            let ghost choices = self.choices@;
            proof {
                assert(self.state() == before);
                assert(mode.provisional(before) == mid);
                assert(mode.fixed(*config, before) == decided(*config, mid));
                assert(leads_nowhere(*config, mid));
                assert(blamed_slot(choices) == blamed_slot_id);
                assert(is_told::<D>(*config, mid));
            }
            match self.choices.pop() {
                Some(previous) => {
                    proof {
                        assert(choices.drop_last() =~= self.choices@);
                        assert(choices.last() == previous);
                        lemma_retreat(*config, self.base(*config), self.history@, choices, before);
                        lemma_work_refute(
                            *config,
                            self.history@,
                            choices,
                            before,
                            undoing_choice,
                        );
                    }
                    undoing_choice = previous;
                    undo_choice(config, &mut self.slots, undoing_choice.slot_id);
                    self.history = Ghost(self.history@.drop_last());
                    let ghost node = self.node(Some(undoing_choice));
                    proof {
                        lemma_attempt_step(*config, self.start(), self.trace@, node);
                        lemma_watched_step::<D>(*config, deadline, self.trace@, node);
                        assert(tried_state(self.trace@.last(), node) == mid);
                        lemma_led_step::<D>(*config, seed, self.trace@, node);
                    }
                    self.trace = Ghost(self.trace@.push(node));
                },
                None => {
                    // If there are no previous choices, we've now proven that the whole grid is
                    // unsolvable.
                    proof {
                        assert forall|words: Assignment| #[trigger] is_fill(
                            *config,
                            words,
                        ) implies !allows(domains(*config, old(self).start()), words) by {
                            if allows(domains(*config, old(self).start()), words) {
                                assert(is_left(*config, self.base(*config), words));
                                assert(follows(words, self.choices@));
                            }
                        }
                    }
                    return Err(FillFailure::HardFailure);
                },
            }
            // If we've exceeded our backtrack limit, restart the fill process with a new seed.
            if self.statistics.backtracks > max_backtracks {
                proof {
                    lemma_pending_bound(
                        *config,
                        self.base(*config),
                        self.history@,
                        self.choices@,
                        self.state(),
                    );
                    lemma_work_refute(
                        *config,
                        self.history@,
                        self.choices@,
                        self.state(),
                        undoing_choice,
                    );
                }
                return Err(FillFailure::ExceededBacktrackLimit(self.statistics.backtracks));
            }
            // Our cached position in the last slot's option list is now invalid.
            self.last_slot_id = None;
            self.last_starting_word_idx = 0;
        }
    }
}

/// The single word left for each slot.
fn collect_choices(config: &GridConfig, slots: &Vec<Slot>) -> (choices: Vec<Choice>)
    requires
        config.wf(),
        slots_wf(*config, slots@),
        forall|s: int|
            0 <= s < slots@.len() ==> #[trigger] sizes(*config, state_of(slots@))[s] == 1,
    ensures
        choices@.len() == slots@.len(),
        forall|s: int| 0 <= s < choices@.len() ==> (#[trigger] choices@[s]).slot_id == s,
        forall|s: int|
            0 <= s < choices@.len() ==> only(
                domains(*config, state_of(slots@))[s],
                (#[trigger] choices@[s]).word_id,
            ),
{
    let mut choices: Vec<Choice> = Vec::new();
    let mut slot_id: usize = 0;
    while slot_id < slots.len()
        invariant
            config.wf(),
            slots_wf(*config, slots@),
            forall|s: int|
                0 <= s < slots@.len() ==> #[trigger] sizes(*config, state_of(slots@))[s] == 1,
            0 <= slot_id <= slots@.len(),
            choices@.len() == slot_id,
            forall|s: int| 0 <= s < choices@.len() ==> (#[trigger] choices@[s]).slot_id == s,
            forall|s: int|
                0 <= s < choices@.len() ==> only(
                    domains(*config, state_of(slots@))[s],
                    (#[trigger] choices@[s]).word_id,
                ),
        decreases slots@.len() - slot_id,
    {
        proof {
            assert(slots@[slot_id as int].wf(*config, slot_id as int));
            assert(sizes(*config, state_of(slots@))[slot_id as int] == 1);
        }
        match slots[slot_id].get_choice(config) {
            Some(choice) => choices.push(choice),
            None => {
                assert(false);
            },
        }
        slot_id = slot_id + 1;
    }
    choices
}

/// The slots are ready to be searched: they match the grid, what the given entries rule out is
/// gone, and nothing is blamed on a choice.
pub open spec fn ready(config: GridConfig, slots: Seq<Slot>) -> bool {
    &&& slots_wf(config, slots)
    &&& given_chosen(config, state_of(slots))
    &&& stable(config, domains(config, state_of(slots)))
    &&& forall|s: int|
        0 <= s < slots.len() ==> blames_choices(Seq::empty(), #[trigger] state_of(slots)[s])
}

/// The number of combinations of words that are left for the slots.
pub open spec fn search_size(config: GridConfig, slots: Seq<Slot>) -> nat {
    product(sizes(config, state_of(slots)))
}

/// There is an attempt that leaves each slot with the chosen word, in which choices are ruled out as
/// often as counted, and which was watched in all of its states. (The counts start over after the
/// largest number.)
pub open spec fn is_attempt_for<D: SearchDriver>(
    config: GridConfig,
    start: GridState,
    deadline: Option<u64>,
    seed: u64,
    max_backtracks: usize,
    state_count: usize,
    backtracks: usize,
    choices: Seq<Choice>,
) -> bool {
    exists|trace: Seq<SearchNode>| #[trigger]
        is_attempt(config, start, trace) && {
            let left = domains(config, trace.last().state);
            &&& is_watched::<D>(config, deadline, trace)
            &&& is_led::<D>(config, seed, trace)
            &&& states(trace) <= usize::MAX ==> states(trace) == state_count
            &&& max_backtracks < usize::MAX ==> refutations(trace) == backtracks
            &&& trace.last().ruling_out is None
            &&& left.len() == choices.len()
            &&& forall|s: int|
                0 <= s < choices.len() ==> only(#[trigger] left[s], choices[s].word_id)
        }
}

/// The word that is taken is the one at the position that was drawn.
proof fn lemma_word_at(
    config: GridConfig,
    slots: Seq<Slot>,
    slot_id: SlotId,
    candidates: Seq<(usize, WordId)>,
    position: usize,
)
    requires
        slot_id < slots.len(),
        slots[slot_id as int].id == slot_id,
        0 < candidates.len() <= RANDOM_WORD_WEIGHTS@.len(),
        position < RANDOM_WORD_WEIGHTS@.len(),
        forall|k: int|
            0 <= k < candidates.len() ==> {
                let candidate = #[trigger] candidates[k];
                &&& is_available(config, slots[slot_id as int], candidate.0 as int)
                &&& candidate.1 == config.options(slot_id as int)[candidate.0 as int]
            },
        forall|k: int, m: int|
            0 <= k < m < candidates.len() ==> candidates[k].0 < candidates[m].0,
        forall|i: int|
            #![trigger is_available(config, slots[slot_id as int], i)]
            is_available(config, slots[slot_id as int], i) ==> {
                ||| exists|k: int| 0 <= k < candidates.len() && (#[trigger] candidates[k]).0 == i
                ||| candidates.len() == RANDOM_WORD_WEIGHTS@.len() && candidates.last().0 < i
            },
    ensures
        is_word_at(
            config,
            state_of(slots),
            Choice {
                slot_id,
                word_id: candidates[if position < candidates.len() {
                    position as int
                } else {
                    candidates.len() - 1
                }].1,
            },
            position,
        ),
{
    let s = slot_id as int;
    let slot = slots[s];
    let state = state_of(slots);
    let at = if position < candidates.len() {
        position as int
    } else {
        candidates.len() - 1
    };
    let choice = Choice { slot_id, word_id: candidates[at].1 };
    let i = candidates[at].0 as int;
    let earlier = Seq::new(at as nat, |k: int| candidates[k].0 as int);
    assert forall|k: int| #[trigger] is_option_left(config, state, s, k) == is_available(
        config,
        slot,
        k,
    ) by {
        assert(state[s] == slot@);
    }
    assert(is_available(config, slot, i));
    assert(is_option_left(config, state, s, i));
    assert forall|k: int| #[trigger] earlier.contains(k) <==> 0 <= k < i && is_option_left(
        config,
        state,
        s,
        k,
    ) by {
        if earlier.contains(k) {
            let m = earlier.index_of(k);
            assert(candidates[m].0 == k);
            assert(candidates[m].0 < candidates[at].0);
            assert(is_available(config, slot, k));
            assert(is_option_left(config, state, s, k));
        }
        if 0 <= k < i && is_option_left(config, state, s, k) {
            assert(is_available(config, slot, k));
            if candidates.len() == RANDOM_WORD_WEIGHTS@.len() && candidates.last().0 < k {
                assert(candidates[at].0 <= candidates.last().0);
            }
            let m = choose|m: int| 0 <= m < candidates.len() && (#[trigger] candidates[m]).0 == k;
            if m >= at {
                assert(candidates[m].0 >= candidates[at].0);
            }
            assert(earlier[m] == k);
        }
    }
    assert(earlier.no_duplicates());
    if at < position {
        assert forall|k: int| i < k implies !#[trigger] is_option_left(config, state, s, k) by {
            if is_option_left(config, state, s, k) {
                assert(is_available(config, slot, k));
                if exists|m: int| 0 <= m < candidates.len() && (#[trigger] candidates[m]).0 == k {
                    let m = choose|m: int|
                        0 <= m < candidates.len() && (#[trigger] candidates[m]).0 == k;
                    assert(candidates[m].0 <= candidates[at].0);
                }
            }
        }
    }
    assert(config.options(choice.slot_id as int)[i] == choice.word_id);
    assert(earlier.len() == position || (earlier.len() < position && forall|k: int|
        i < k ==> !#[trigger] is_option_left(config, state, s, k)));
    assert(is_word_at(config, state, choice, position));
}

/// The word that is taken is one of the first few that are left.
proof fn lemma_candidate(
    config: GridConfig,
    slots: Seq<Slot>,
    slot_id: SlotId,
    candidates: Seq<(usize, WordId)>,
    at: int,
)
    requires
        slot_id < slots.len(),
        slots[slot_id as int].id == slot_id,
        slots_wf(config, slots),
        0 <= at < candidates.len() <= RANDOM_WORD_WEIGHTS@.len(),
        forall|k: int|
            0 <= k < candidates.len() ==> {
                let candidate = #[trigger] candidates[k];
                &&& is_available(config, slots[slot_id as int], candidate.0 as int)
                &&& candidate.1 == config.options(slot_id as int)[candidate.0 as int]
            },
        forall|k: int, m: int|
            0 <= k < m < candidates.len() ==> candidates[k].0 < candidates[m].0,
        forall|i: int|
            0 <= i < candidates[at].0 && #[trigger] is_available(
                config,
                slots[slot_id as int],
                i,
            ) ==> exists|k: int| 0 <= k < candidates.len() && (#[trigger] candidates[k]).0 == i,
    ensures
        is_candidate(
            config,
            state_of(slots),
            (Choice { slot_id, word_id: candidates[at].1 }),
        ),
{
    let s = slot_id as int;
    let state = state_of(slots);
    let earlier = Seq::new(at as nat, |k: int| candidates[k].0 as int);
    let i = candidates[at].0 as int;
    assert(is_available(config, slots[s], i));
    assert(state[s].eliminations == slots[s].eliminations@);
    assert(is_option_left(config, state, s, i));
    assert forall|j: int| 0 <= j < i && #[trigger] is_option_left(
        config,
        state,
        s,
        j,
    ) implies earlier.contains(j) by {
        assert(is_available(config, slots[s], j));
        let k = choose|k: int| 0 <= k < candidates.len() && (#[trigger] candidates[k]).0 == j;
        assert(k < at) by {
            if k > at {
                assert(candidates[at].0 < candidates[k].0);
            }
        }
        assert(earlier[k] == j);
    }
    let choice = Choice { slot_id, word_id: candidates[at].1 };
    assert(config.options(s)[i] == choice.word_id);
    assert(earlier.len() < RANDOM_WORD_WEIGHTS@.len());
    assert(choice.slot_id as int == s);
    assert(is_candidate(config, state, choice));
}

/// The single words that are left for all slots are a fill.
proof fn lemma_choices_fill(
    config: GridConfig,
    base: Domains,
    state: GridState,
    choices: Seq<Choice>,
)
    requires
        config.wf(),
        state_wf(config, state),
        stable(config, domains(config, state)),
        within(domains(config, state), base),
        choices.len() == config.slot_count(),
        forall|s: int|
            0 <= s < choices.len() ==> only(
                domains(config, state)[s],
                (#[trigger] choices[s]).word_id,
            ),
    ensures
        is_fill(config, words_of(choices)),
        allows(base, words_of(choices)),
        forall|s: int|
            0 <= s < choices.len() ==> only(
                #[trigger] domains(config, state)[s],
                choices[s].word_id,
            ),
{
    let left = domains(config, state);
    let words = words_of(choices);
    assert forall|s: int| 0 <= s < words.len() implies only(#[trigger] left[s], words[s]) by {
        assert(choices[s].word_id == words[s]);
    }
    assert forall|s: int| 0 <= s < words.len() implies config.options(s).contains(
        #[trigger] words[s],
    ) by {
        assert(state[s].wf(config, s));
        lemma_size(config, state[s], s);
        assert(only(left[s], words[s]));
    }
    lemma_stable_fill(config, left, words);
    assert forall|s: int| 0 <= s < words.len() implies (#[trigger] base[s]).contains(words[s]) by {
        assert(only(left[s], words[s]));
        assert(left[s].contains(words[s]));
    }
}

impl Search {
    /// Choose one of the options that are left for a slot, by chance.
    fn draw_choice(&mut self, config: &GridConfig, slot_id: SlotId, rng: &mut SmallRng) -> (choice:
        Choice)
        requires
            config.wf(),
            old(self).ok(*config),
            slot_id < old(self).slots@.len(),
            is_open(old(self).slots@[slot_id as int]),
        ensures
            final(self).ok(*config),
            final(self).slots == old(self).slots,
            final(self).choices == old(self).choices,
            final(self).history == old(self).history,
            final(self).trace == old(self).trace,
            final(self).statistics == old(self).statistics,
            choice.slot_id == slot_id,
            choosable(*config, old(self).state(), choice),
            is_candidate(*config, old(self).state(), choice),
            is_word_drawn(*config, old(self).state(), choice),
    {
        proof {
            assert(self.slots@[slot_id as int].wf(*config, slot_id as int));
        }
        // If we're still on the same slot as last time, start from where we left off instead of
        // rechecking previously-evaluated words.
        let starting_word_idx: usize = match self.last_slot_id {
            Some(last_slot_id) => if last_slot_id == slot_id {
                self.last_starting_word_idx
            } else {
                0
            },
            None => 0,
        };
        let candidates: Vec<(usize, WordId)> = word_candidates(
            config,
            &self.slots[slot_id],
            starting_word_idx,
        );
        let ghost slot = self.slots@[slot_id as int];
        proof {
            lemma_random_weights();
            let options = config.options(slot_id as int);
            let k = lemma_tally_witness(options, not_eliminated(slot.eliminations@));
            assert(is_available(*config, slot, k));
            assert(candidates@.len() > 0);
            assert forall|i: int| 0 <= i < candidates@[0].0 implies !is_available(
                *config,
                slot,
                i,
            ) by {
                if is_available(*config, slot, i) {
                    assert(starting_word_idx <= i);
                    assert(candidates@.last().0 >= candidates@[0].0);
                }
            }
        }
        // Choose one of the candidates at (weighted) random.
        let sample: usize = draw(rng, &RANDOM_WORD_WEIGHTS);
        let ghost at = if sample < candidates@.len() {
            sample as int
        } else {
            candidates@.len() - 1
        };
        let word_id: WordId = pick_word(&candidates, sample);
        // Record our position so we can pick up where we left off if needed, using the first
        // candidate index to make sure we don't skip any words.
        self.last_slot_id = Some(slot_id);
        self.last_starting_word_idx = candidates[0].0;
        let choice: Choice = Choice { slot_id, word_id };
        proof {
            let options = config.options(slot_id as int);
            let candidate = candidates@[at];
            assert(is_available(*config, slot, candidate.0 as int));
            assert(options.contains(word_id));
            assert(self.state()[slot_id as int] == slot@);
            assert(choosable(*config, self.state(), choice));
            lemma_candidate(
                *config,
                self.slots@,
                slot_id,
                candidates@,
                at,
            );
            lemma_word_at(
                *config,
                self.slots@,
                slot_id,
                candidates@,
                sample,
            );
            assert(is_drawn(*old(rng), RANDOM_WORD_WEIGHTS@, sample));
            assert(is_word_drawn(*config, self.state(), choice));
        }
        choice
    }
}

/// Ask the driver for the time and for a signal to stop, if it is time to do so.
fn look<D: SearchDriver>(
    config: &GridConfig,
    deadline: Option<u64>,
    number: usize,
    driver: &D,
) -> (failure: Option<FillFailure>)
    ensures
        match failure {
            None => number % INTERRUPT_FREQUENCY == 0 ==> {
                &&& lets_go_on(*driver, deadline, config.abort)
                &&& deadline matches Some(deadline) ==> clock_allowed::<D>(deadline as int)
                &&& config.abort ==> was_not_aborted::<D>()
            },
            Some(FillFailure::Timeout) => number % INTERRUPT_FREQUENCY == 0 && (deadline matches Some(
                deadline,
            ) && clock_passed::<D>(deadline as int)),
            Some(FillFailure::Abort) => number % INTERRUPT_FREQUENCY == 0 && config.abort
                && was_aborted::<D>(),
            Some(_) => false,
        },
{
    if number % INTERRUPT_FREQUENCY != 0 {
        return None;
    }
    let now: u64 = match deadline {
        Some(_) => driver.now(),
        None => 0,
    };
    let requested: bool = config.abort && driver.abort_requested();
    assert(deadline is Some ==> call_ensures(D::now, (driver,), now));
    assert(config.abort ==> call_ensures(D::abort_requested, (driver,), requested));
    interruption(number, deadline, now, config.abort, requested)
}

/// Search for a valid fill for the given grid, bailing out if we reach the deadline or the
/// specified number of backtracks. The driver can be shared between multiple retries of the same
/// overall search attempt.
#[verifier::rlimit(40)]
pub fn find_fill_for_seed<D: SearchDriver>(
    config: &GridConfig,
    slots: &Vec<Slot>,
    deadline: Option<u64>,
    max_backtracks: usize,
    rng_seed: u64,
    driver: &mut D,
) -> (result: Result<FillSuccess, FillFailure>)
    requires
        config.wf(),
        ready(*config, slots@),
    ensures
        match result {
            Ok(success) => {
                &&& is_complete_fill(*config, success.choices@)
                &&& is_attempt_for::<D>(
                    *config,
                    state_of(slots@),
                    deadline,
                    rng_seed,
                    max_backtracks,
                    success.statistics.states,
                    success.statistics.backtracks,
                    success.choices@,
                )
                &&& success.statistics.backtracks < search_size(*config, slots@)
                &&& success.statistics.backtracks <= max_backtracks
                &&& success.statistics.states >= INTERRUPT_FREQUENCY ==> {
                    &&& deadline matches Some(deadline) ==> clock_allowed::<D>(deadline as int)
                    &&& config.abort ==> was_not_aborted::<D>()
                }
                &&& is_elapsed(*old(driver), *final(driver), success.statistics.total_time)
                &&& success.statistics.retries == 0
                &&& success.statistics.try_time == 0
                &&& success.statistics.initial_arc_consistency_time == 0
            },
            Err(FillFailure::HardFailure) => {
                &&& rules_out_fills(*config, state_of(slots@))
                &&& is_refuted_attempt::<D>(*config, state_of(slots@), deadline, rng_seed)
            },
            Err(FillFailure::Timeout) => {
                &&& deadline matches Some(deadline) && clock_passed::<D>(deadline as int)
                &&& is_cut_short::<D>(*config, state_of(slots@), deadline, rng_seed)
            },
            Err(FillFailure::Abort) => {
                &&& config.abort && was_aborted::<D>()
                &&& is_cut_short::<D>(*config, state_of(slots@), deadline, rng_seed)
            },
            Err(FillFailure::ExceededBacktrackLimit(backtracks)) => {
                &&& backtracks == max_backtracks + 1
                &&& backtracks <= search_size(*config, slots@)
                &&& is_attempt_with::<D>(
                    *config,
                    state_of(slots@),
                    deadline,
                    rng_seed,
                    backtracks as nat,
                )
            },
        },
        deadline is None && !config.abort && search_size(*config, slots@) <= max_backtracks
            ==> result is Ok == !rules_out_fills(*config, state_of(slots@)),
{
    let start: u64 = driver.now();
    assert(call_ensures(D::now, (&*old(driver),), start));
    let mut rng: SmallRng = seeded_rng(rng_seed);
    let ghost limit = search_size(*config, slots@) as int;
    let ghost first = SearchNode {
        choices: Seq::empty(),
        state: state_of(slots@),
        ruling_out: None,
    };
    let ghost trace = Seq::<SearchNode>::empty().push(first);
    let mut search = Search {
        slots: clone_slots(slots),
        choices: Vec::new(),
        last_slot_id: None,
        last_starting_word_idx: 0,
        statistics: Statistics::default(),
        history: Ghost(Seq::empty()),
        trace: Ghost(trace),
    };
    proof {
        lemma_same_state_ready(*config, slots@, search.slots@);
        assert(search.choices@ =~= Seq::empty());
        assert(trace.drop_last() =~= Seq::empty());
        lemma_watched_start::<D>(*config, deadline);
        lemma_led_start::<D>(*config, rng_seed, trace);
        reveal_with_fuel(states, 2);
        assert(state_of(search.slots@) =~= state_of(slots@));
    }
    // Enter the main loop:
    // * Choose an option for a slot and try to propagate constraints for it. If we succeed, we keep
    //   the choice and continue the loop.
    // * If we failed to choose an option, record that the option is unavailable and try to
    //   propagate constraints for that. If we succeed, we continue the loop, most likely trying to
    //   pick another option for the same slot but also potentially changing slots.
    // * If we also failed to propagate constraints with the chosen option being *un*available, it
    //   means the previous choice we made is untenable. Try to undo it and propagate the
    //   information that *that* choice is unavailable. Repeat until we reach a viable state, or
    //   abandon the fill attempt if we can't.
    loop
        invariant
            config.wf(),
            limit == search_size(*config, slots@),
            search.ok(*config),
            search.start() == state_of(slots@),
            search.is_traced(*config, None),
            is_watched::<D>(*config, deadline, search.trace@.drop_last()),
            is_led::<D>(*config, rng_seed, search.trace@),
            call_ensures(D::now, (&*old(driver),), start),
            search.trace@.len() == 1 ==> search.last_slot_id is None && is_seeded(rng, rng_seed),
            states(search.trace@) <= usize::MAX + 1 ==> search.statistics.states + 1 == states(
                search.trace@,
            ),
            max_backtracks < usize::MAX ==> refutations(search.trace@)
                == search.statistics.backtracks,
            search.work(*config) + search.statistics.backtracks <= limit,
            search.statistics.backtracks <= max_backtracks,
            search.statistics.states >= INTERRUPT_FREQUENCY ==> {
                &&& deadline matches Some(deadline) ==> clock_allowed::<D>(deadline as int)
                &&& config.abort ==> was_not_aborted::<D>()
            },
            search.statistics.retries == 0,
            search.statistics.try_time == 0,
            search.statistics.initial_arc_consistency_time == 0,
        decreases search.work(*config), total(sizes(*config, search.state())),
    {
        search.statistics.states = search.statistics.states.wrapping_add(1);
        if let Some(failure) = look(config, deadline, search.statistics.states, driver) {
            return Err(failure);
        }
        proof {
            lemma_pending_bound(
                *config,
                search.base(*config),
                search.history@,
                search.choices@,
                search.state(),
            );
            lemma_state_wf(*config, search.slots@);
            lemma_sizes_positive(*config, search.state());
        }
        // Choose which slot to try to fill.
        let ghost generator: SmallRng = rng;
        let ghost last_slot_id = search.last_slot_id;
        let ghost weighing: D = *driver;
        driver.weigh_slots(config, &search.slots);
        proof {
            assert(weighs(weighing, *config, search.state()));
            let trace = search.trace@;
            if is_due(states(trace)) {
                assert(is_look::<D>(*config, deadline, search.state()));
            }
            assert(trace.drop_last().push(trace.last()) =~= trace);
            lemma_watched_step::<D>(*config, deadline, trace.drop_last(), trace.last());
        }
        let slot_id: SlotId = match choose_next_slot(
            &search.slots,
            search.last_slot_id,
            &mut rng,
            driver,
            &mut search.statistics,
        ) {
            Some(slot_id) => slot_id,
            None => {
                // If there are no more slots to fill, it means we're done.
                let end: u64 = driver.now();
                search.statistics.total_time = end.saturating_sub(start);
                let ghost asked: D = *driver;
                assert(call_ensures(D::now, (&asked,), end));
                proof {
                    assert forall|s: int| 0 <= s < search.slots@.len() implies #[trigger] sizes(
                        *config,
                        search.state(),
                    )[s] == 1 by {
                        assert(!is_open(search.slots@[s]));
                        assert(search.slots@[s].wf(*config, s));
                        assert(sizes(*config, search.state())[s] >= 1);
                    }
                }
                // We need to build a `choices` array that includes both choices we made explicitly
                // and ones that were made implicitly by maintaining arc consistency.
                let choices: Vec<Choice> = collect_choices(config, &search.slots);
                proof {
                    lemma_choices_fill(
                        *config,
                        domains(*config, state_of(slots@)),
                        search.state(),
                        choices@,
                    );
                }
                return Ok(FillSuccess { statistics: search.statistics, choices });
            },
        };
        proof {
            assert(search.slots@[slot_id as int].wf(*config, slot_id as int));
            assert(is_slot_drawn::<D>(
                search.state(),
                slot_id,
                first_seed(rng_seed, search.trace@.len() as int),
            ));
        }
        let choice: Choice = search.draw_choice(config, slot_id, &mut rng);
        // Try to propagate the implications of making this choice to the rest of the grid. If that
        // succeeds, we can move on to the next slot.
        let ghost before = search.trace@;
        let ghost state = search.state();
        assert(is_slot_drawn::<D>(state, slot_id, first_seed(rng_seed, before.len() as int)));
        assert(is_word_drawn(*config, state, choice));
        assert(before.last().state == state);
        if !search.advance(config, choice, driver) {
            proof {
                let trace = search.trace@;
                assert(trace.drop_last().push(trace.last()) =~= trace);
                lemma_watched_step::<D>(*config, deadline, before, trace.last());
                assert(picked(trace.last()) == choice);
                lemma_led_step::<D>(*config, rng_seed, before, trace.last());
            }
            // Otherwise, we can rule this option out.
            search.backtrack(
                config,
                choice,
                max_backtracks,
                driver,
                Ghost(limit),
                Ghost(deadline),
                Ghost(rng_seed),
            )?;
        } else {
            proof {
                let trace = search.trace@;
                assert(trace.drop_last().push(trace.last()) =~= trace);
                assert(picked(trace.last()) == choice);
                lemma_led_step::<D>(*config, rng_seed, before, trace.last());
            }
        }
        proof {
            lemma_pending_bound(
                *config,
                search.base(*config),
                search.history@,
                search.choices@,
                search.state(),
            );
        }
    }
}

/// Copy slots, so that a search can be repeated.
fn clone_slots(slots: &Vec<Slot>) -> (copies: Vec<Slot>)
    ensures
        copies@.len() == slots@.len(),
        state_of(copies@) == state_of(slots@),
        forall|config: GridConfig| slots_wf(config, slots@) ==> #[trigger] slots_wf(config, copies@),
{
    let mut copies: Vec<Slot> = Vec::new();
    let mut slot_id: usize = 0;
    while slot_id < slots.len()
        invariant
            0 <= slot_id <= slots@.len(),
            copies@.len() == slot_id,
            forall|s: int| 0 <= s < slot_id ==> (#[trigger] copies@[s])@ == slots@[s]@,
            forall|config: GridConfig, s: int|
                0 <= s < slot_id && slots@[s].wf(config, s) ==> (#[trigger] copies@[s].wf(config, s)),
        decreases slots@.len() - slot_id,
    {
        copies.push(slots[slot_id].clone());
        slot_id = slot_id + 1;
    }
    assert(state_of(copies@) =~= state_of(slots@));
    copies
}

/// Slots in the same state are equally ready.
proof fn lemma_same_state_ready(config: GridConfig, left: Seq<Slot>, right: Seq<Slot>)
    requires
        config.wf(),
        ready(config, left),
        slots_wf(config, right),
        state_of(left) == state_of(right),
    ensures
        path_ok(
            config,
            domains(config, state_of(left)),
            Seq::empty(),
            Seq::empty(),
            state_of(right),
        ),
        work(config, Seq::empty(), Seq::empty(), state_of(right)) == search_size(config, left),
{
    lemma_state_wf(config, right);
}

/// The state that a fill operation starts from: nothing is ruled out, and slots whose entries were
/// given have their word.
pub open spec fn start_state(config: GridConfig) -> GridState {
    Seq::new(
        config.slot_count(),
        |s: int|
            SlotState {
                eliminations: Seq::new(
                    config.word_list.words@[config.slot_length(s)]@.len(),
                    |w: int| None,
                ),
                fixed: if config.prefilled(s) {
                    Some(config.options(s)[0])
                } else {
                    None
                },
            },
    )
}

/// A list of words that are all available.
fn no_eliminations(count: usize) -> (eliminations: Vec<Option<Option<SlotId>>>)
    ensures
        eliminations@ == Seq::new(count as nat, |w: int| None::<Option<SlotId>>),
{
    let mut eliminations: Vec<Option<Option<SlotId>>> = Vec::new();
    let mut w: usize = 0;
    while w < count
        invariant
            0 <= w <= count,
            eliminations@ == Seq::new(w as nat, |w: int| None::<Option<SlotId>>),
        decreases count - w,
    {
        eliminations.push(None);
        w = w + 1;
        assert(eliminations@ =~= Seq::new(w as nat, |w: int| None::<Option<SlotId>>));
    }
    eliminations
}

/// Create basic Slot structs for the grid, which we can copy for each retry instead of having to
/// regenerate from scratch.
pub fn start_slots(config: &GridConfig) -> (slots: Vec<Slot>)
    requires
        config.wf(),
    ensures
        slots_wf(*config, slots@),
        state_of(slots@) == start_state(*config),
{
    let mut slots: Vec<Slot> = Vec::new();
    let mut slot_id: usize = 0;
    while slot_id < config.slot_configs.len()
        invariant
            config.wf(),
            0 <= slot_id <= config.slot_count(),
            slots@.len() == slot_id,
            forall|s: int| 0 <= s < slot_id ==> (#[trigger] slots@[s]).wf(*config, s),
            forall|s: int| 0 <= s < slot_id ==> (#[trigger] slots@[s])@ == start_state(*config)[s],
        decreases config.slot_count() - slot_id,
    {
        let slot_config = &config.slot_configs[slot_id];
        let options: &Vec<WordId> = &config.slot_options[slot_id];
        proof {
            assert(config.slot_wf(slot_id as int));
        }
        let glyph_counts_by_cell: GlyphCountsByCell = build_glyph_counts_by_cell(
            config.word_list,
            slot_config.length,
            options.as_slice(),
        );
        let is_fixed: bool = slot_config.complete_fill(config.fill, config.width).is_some();
        let word_count: usize = config.word_list.words[slot_config.length].len();
        let eliminations: Vec<Option<Option<SlotId>>> = no_eliminations(word_count);
        proof {
            lemma_tally_all(options@, not_eliminated(eliminations@));
            assert forall|c: int| 0 <= c < slot_config.length implies cell_counts_match(
                counts_of(#[trigger] glyph_counts_by_cell@[c]),
                *config.word_list,
                slot_config.length as int,
                options@,
                not_eliminated(eliminations@),
                c,
            ) by {
                lemma_counts_same(
                    counts_of(glyph_counts_by_cell@[c]),
                    *config.word_list,
                    slot_config.length as int,
                    options@,
                    all_words(),
                    not_eliminated(eliminations@),
                    c,
                );
            }
        }
        let fixed_glyph_counts_by_cell: Option<GlyphCountsByCell> = if is_fixed {
            Some(clone_counts(&glyph_counts_by_cell))
        } else {
            None
        };
        let fixed_word_id: Option<WordId> = if is_fixed {
            Some(options[0])
        } else {
            None
        };
        let slot = Slot {
            id: slot_id,
            length: slot_config.length,
            eliminations,
            glyph_counts_by_cell,
            remaining_option_count: options.len(),
            fixed_word_id,
            fixed_glyph_counts_by_cell,
        };
        proof {
            if is_fixed {
                assert(options@ =~= seq![options@[0]]);
            }
            assert(slot@ =~= start_state(*config)[slot_id as int]);
            assert(slot.wf(*config, slot_id as int));
        }
        slots.push(slot);
        slot_id = slot_id + 1;
    }
    assert(state_of(slots@) =~= start_state(*config));
    slots
}

/// If every item has the property, the tally is the number of items.
proof fn lemma_tally_all(options: Seq<WordId>, p: spec_fn(WordId) -> bool)
    requires
        forall|i: int| 0 <= i < options.len() ==> p(#[trigger] options[i]),
    ensures
        tally(options, p) == options.len(),
    decreases options.len(),
{
    if options.len() > 0 {
        let front = options.drop_last();
        assert forall|i: int| 0 <= i < front.len() implies p(#[trigger] front[i]) by {
            assert(front[i] == options[i]);
        }
        lemma_tally_all(front, p);
        assert(p(options[options.len() - 1]));
    }
}

/// Counts over options that are all available are counts of the available ones.
proof fn lemma_counts_same(
    counts: Seq<u32>,
    word_list: WordList,
    length: int,
    options: Seq<WordId>,
    p: spec_fn(WordId) -> bool,
    q: spec_fn(WordId) -> bool,
    cell: int,
)
    requires
        cell_counts_match(counts, word_list, length, options, p, cell),
        forall|i: int| 0 <= i < options.len() ==> p(#[trigger] options[i]) == q(options[i]),
    ensures
        cell_counts_match(counts, word_list, length, options, q, cell),
{
    assert forall|g: int| 0 <= g < counts.len() implies #[trigger] counts[g] == tally(
        options,
        counted(word_list, length, q, cell, g),
    ) by {
        lemma_tally_same(
            options,
            counted(word_list, length, p, cell, g),
            counted(word_list, length, q, cell, g),
        );
    }
}

/// Every fill is possible at the start.
proof fn lemma_start_covers(config: GridConfig)
    requires
        config.wf(),
    ensures
        forall|words: Assignment| #[trigger]
            is_fill(config, words) ==> allows(domains(config, start_state(config)), words),
{
    let start = start_state(config);
    assert forall|words: Assignment| #[trigger] is_fill(config, words) implies allows(
        domains(config, start),
        words,
    ) by {
        assert forall|s: int| 0 <= s < words.len() implies (
        #[trigger] domains(config, start)[s]).contains(words[s]) by {
            assert(config.slot_wf(s));
            let options = config.options(s);
            assert(options.contains(words[s]));
            assert(options[options.index_of(words[s])] == words[s]);
        }
    }
}

/// Once what a grid rules out at the start is gone, its slots are ready to be searched.
pub proof fn lemma_ready(config: GridConfig, slots: Seq<Slot>)
    requires
        config.wf(),
        slots_wf(config, slots),
        propagated(start_state(config), state_of(slots), None),
        stable(config, domains(config, state_of(slots))),
        keeps_fills(config, start_state(config), state_of(slots)),
    ensures
        ready(config, slots),
        rules_out_fills(config, state_of(slots)) == !fillable(config),
        search_size(config, slots) <= product(sizes(config, start_state(config))),
{
    let start = start_state(config);
    let state = state_of(slots);
    lemma_state_wf(config, slots);
    lemma_start_covers(config);
    if fillable(config) {
        let words = choose|words: Assignment| is_fill(config, words);
        assert(allows(domains(config, state), words));
    }
    assert forall|s: int| 0 <= s < state.len() && #[trigger] config.prefilled(s) implies state[s].fixed
        is Some by {
        assert(slot_propagated(start[s], state[s], None));
    }
    assert forall|s: int| 0 <= s < state.len() implies blames_choices(
        Seq::empty(),
        #[trigger] state[s],
    ) by {
        assert(slot_propagated(start[s], state[s], None));
    }
    lemma_sizes_propagated(config, start, state, None);
    lemma_product_monotone(sizes(config, state), sizes(config, start));
}

/// The limit on retries in environments where a search cannot be interrupted.
pub const MAX_RETRIES: u64 = 100000;

/// The limit on backtracks for the first attempt.
pub const INITIAL_MAX_BACKTRACKS: usize = 500;

/// There are no more backtracks and retries than the number of combinations of words allows.
pub open spec fn plausible(config: GridConfig, statistics: Statistics) -> bool {
    let combinations = product(sizes(config, start_state(config)));
    &&& statistics.backtracks < combinations
    &&& statistics.retries == 0 || INITIAL_MAX_BACKTRACKS + statistics.retries <= combinations
}

/// The state in which what a grid rules out at the start is gone.
pub open spec fn is_initial(config: GridConfig, state: GridState) -> bool {
    let start = start_state(config);
    &&& state_wf(config, state)
    &&& propagated(start, state, None)
    &&& consistent(config, chosen(start), domains(config, state))
    &&& retains(config, chosen(start), domains(config, start), domains(config, state))
}

/// The limit on backtracks for the next attempt: what the driver wants, but at least one more.
pub open spec fn grown_limit(max_backtracks: usize, wanted: usize) -> int {
    if wanted > max_backtracks {
        wanted as int
    } else {
        max_backtracks + 1
    }
}

/// Increase the limit on backtracks by at least one.
pub fn next_limit(max_backtracks: usize, wanted: usize) -> (limit: usize)
    requires
        max_backtracks < usize::MAX,
    ensures
        limit == grown_limit(max_backtracks, wanted),
{
    if wanted > max_backtracks {
        wanted
    } else {
        max_backtracks + 1
    }
}

/// One limit follows the other.
pub open spec fn is_next_limit<D: SearchDriver>(max_backtracks: usize, limit: usize) -> bool {
    exists|driver: D, wanted: usize| #[trigger]
        call_ensures(D::grow_backtrack_limit, (&driver, max_backtracks), wanted) && limit
            == grown_limit(max_backtracks, wanted)
}

/// The limits on backtracks of attempts one after the other, each of which exceeds its own.
pub open spec fn are_exceeded<D: SearchDriver>(
    config: GridConfig,
    start: GridState,
    deadline: Option<u64>,
    limits: Seq<usize>,
) -> bool {
    &&& limits.len() > 0 ==> limits[0] == INITIAL_MAX_BACKTRACKS
    &&& forall|i: int|
        0 < i < limits.len() ==> is_next_limit::<D>(limits[i - 1], #[trigger] limits[i])
    &&& forall|i: int|
        0 <= i < limits.len() ==> is_attempt_with::<D>(
            config,
            start,
            deadline,
            i as u64,
            (#[trigger] limits[i] + 1) as nat,
        )
}

/// A number of attempts one after the other need more backtracks than they may have.
pub open spec fn are_retried<D: SearchDriver>(
    config: GridConfig,
    deadline: Option<u64>,
    attempts: nat,
) -> bool {
    exists|start: GridState, limits: Seq<usize>|
        #![trigger is_initial(config, start), are_exceeded::<D>(config, start, deadline, limits)]
        is_initial(config, start) && limits.len() == attempts && are_exceeded::<D>(
            config,
            start,
            deadline,
            limits,
        )
}

/// The limit is that of the attempt after the ones with these limits.
pub open spec fn is_limit_after<D: SearchDriver>(limits: Seq<usize>, limit: usize) -> bool {
    if limits.len() == 0 {
        limit == INITIAL_MAX_BACKTRACKS
    } else {
        is_next_limit::<D>(limits.last(), limit)
    }
}

/// What a grid rules out at the start leaves a slot without words.
pub open spec fn is_stuck(config: GridConfig) -> bool {
    let start = start_state(config);
    forall|e: Domains| #[trigger]
        consistent(config, chosen(start), e) ==> !within(e, domains(config, start))
}

/// How the last attempt of a search ends, after attempts with these limits.
pub open spec fn is_last_attempt<D: SearchDriver>(
    config: GridConfig,
    start: GridState,
    deadline: Option<u64>,
    max_retries: Option<u64>,
    limits: Seq<usize>,
    result: Result<FillSuccess, FillFailure>,
) -> bool {
    match result {
        Ok(success) => {
            &&& limits.len() == success.statistics.retries
            &&& exists|limit: usize|
                #![trigger is_limit_after::<D>(limits, limit)]
                is_limit_after::<D>(limits, limit) && is_attempt_for::<D>(
                    config,
                    start,
                    deadline,
                    limits.len() as u64,
                    limit,
                    success.statistics.states,
                    success.statistics.backtracks,
                    success.choices@,
                )
        },
        Err(FillFailure::HardFailure) => {
            ||| is_refuted_attempt::<D>(config, start, deadline, limits.len() as u64)
            ||| max_retries matches Some(max_retries) && limits.len() == max_retries
        },
        Err(FillFailure::Timeout) => deadline is Some && is_cut_short::<D>(
            config,
            start,
            deadline,
            limits.len() as u64,
        ),
        Err(FillFailure::Abort) => config.abort && is_cut_short::<D>(
            config,
            start,
            deadline,
            limits.len() as u64,
        ),
        Err(FillFailure::ExceededBacktrackLimit(_)) => false,
    }
}

/// What a search comes to: attempts that exceed their limits one after the other, and a last one. All
/// of them are watched.
pub open spec fn is_search<D: SearchDriver>(
    config: GridConfig,
    deadline: Option<u64>,
    max_retries: Option<u64>,
    result: Result<FillSuccess, FillFailure>,
) -> bool {
    ||| result == Err::<FillSuccess, FillFailure>(FillFailure::HardFailure) && is_stuck(config)
        && is_told::<D>(config, start_state(config))
    ||| exists|start: GridState, limits: Seq<usize>|
        #![trigger is_initial(config, start), are_exceeded::<D>(config, start, deadline, limits)]
        {
            &&& is_initial(config, start)
            &&& are_exceeded::<D>(config, start, deadline, limits)
            &&& is_last_attempt::<D>(config, start, deadline, max_retries, limits, result)
        }
}

/// A search is watched, and has to end by a deadline, which is a timeout after the search was started
/// by the driver.
pub open spec fn is_timed_search<D: SearchDriver>(
    config: GridConfig,
    driver: D,
    timeout: Option<u64>,
    max_retries: Option<u64>,
    result: Result<FillSuccess, FillFailure>,
) -> bool {
    exists|deadline: Option<u64>| #[trigger]
        is_deadline(driver, timeout, deadline) && is_search::<D>(
            config,
            deadline,
            max_retries,
            result,
        )
}

/// A search that went on for long enough was found to be within its time, and not to be aborted.
pub open spec fn was_in_time<D: SearchDriver>(
    config: GridConfig,
    timeout: Option<u64>,
    statistics: Statistics,
) -> bool {
    statistics.states >= INTERRUPT_FREQUENCY ==> {
        &&& timeout matches Some(timeout) ==> time_left::<D>(timeout)
        &&& config.abort ==> was_not_aborted::<D>()
    }
}

/// Keep trying to fill the grid until we either succeed, run out of time or run out of retries.
/// Each attempt has a slightly larger limit on backtracks in addition to having a new seed.
fn find_fill_with_retries<D: SearchDriver>(
    config: &GridConfig,
    timeout: Option<u64>,
    max_retries: Option<u64>,
    driver: &mut D,
) -> (result: Result<FillSuccess, FillFailure>)
    requires
        config.wf(),
        max_retries matches Some(max_retries) ==> max_retries > 0,
    ensures
        match result {
            Ok(success) => {
                &&& is_complete_fill(*config, success.choices@)
                &&& plausible(*config, success.statistics)
                &&& was_in_time::<D>(*config, timeout, success.statistics)
                &&& is_elapsed(*old(driver), *final(driver), success.statistics.total_time)
                &&& max_retries matches Some(max_retries) ==> success.statistics.retries < max_retries
            },
            Err(FillFailure::HardFailure) => !fillable(*config) || (max_retries matches Some(
                max_retries,
            ) && exists|deadline: Option<u64>| #[trigger]
                is_deadline(*old(driver), timeout, deadline) && are_retried::<D>(
                    *config,
                    deadline,
                    max_retries as nat,
                ) && INITIAL_MAX_BACKTRACKS + max_retries <= product(
                    sizes(*config, start_state(*config)),
                )),
            Err(FillFailure::Timeout) => timeout matches Some(timeout) && time_passed::<D>(timeout),
            Err(FillFailure::Abort) => config.abort && was_aborted::<D>(),
            Err(FillFailure::ExceededBacktrackLimit(_)) => false,
        },
        is_timed_search(*config, *old(driver), timeout, max_retries, result),
{
    let start: u64 = driver.now();
    let ghost asked: D = *driver;
    assert(call_ensures(D::now, (&asked,), start));
    let deadline: Option<u64> = deadline_after(start, timeout);
    assert(is_deadline(asked, timeout, deadline));
    let mut slots: Vec<Slot> = start_slots(config);
    // Establish initial arc consistency (including dupe-checking). If we can't even do that, we're
    // obviously not going to be able to find a fill.
    driver.weigh_slots(config, &slots);
    let initial_start: u64 = driver.now();
    proof {
        assert forall|s: int| 0 <= s < state_of(slots@).len() implies (
        #[trigger] state_of(slots@)[s]).fixed is Some == config.prefilled(s) by {}
    }
    match maintain_arc_consistency(config, &mut slots, &ArcConsistencyMode::Initial) {
        Ok(_) => {},
        Err(failure) => {
            driver.record_failure(config, &failure);
            proof {
                lemma_start_covers(*config);
                assert forall|words: Assignment| !is_fill(*config, words) by {}
                let start = start_state(*config);
                assert(ArcConsistencyMode::Initial.fixed(*config, start) =~= chosen(start));
                assert(is_stuck(*config));
            }
            return Err(FillFailure::HardFailure);
        },
    }
    let initial_arc_consistency_time: u64 = driver.now().saturating_sub(initial_start);
    proof {
        lemma_ready(*config, slots@);
    }
    let ghost size = search_size(*config, slots@);
    let ghost initial = state_of(slots@);
    let ghost mut limits: Seq<usize> = Seq::empty();
    proof {
        lemma_state_wf(*config, slots@);
        assert(is_initial(*config, initial));
    }
    // We cap the number of backtracks for each retry so that we don't get hung up for too long on a
    // bad starting point.
    let mut max_backtracks: usize = INITIAL_MAX_BACKTRACKS;
    let mut retry_num: u64 = 0;
    loop
        invariant
            config.wf(),
            ready(*config, slots@),
            initial == state_of(slots@),
            is_initial(*config, initial),
            rules_out_fills(*config, initial) == !fillable(*config),
            limits.len() == retry_num,
            are_exceeded::<D>(*config, initial, deadline, limits),
            asked == *old(driver),
            is_deadline(asked, timeout, deadline),
            retry_num == 0 ==> max_backtracks == INITIAL_MAX_BACKTRACKS,
            retry_num > 0 ==> is_next_limit::<D>(limits.last(), max_backtracks),
            size == search_size(*config, slots@),
            size <= product(sizes(*config, start_state(*config))),
            call_ensures(D::now, (&asked,), start),
            deadline is Some == timeout is Some,
            timeout matches Some(timeout) ==> deadline->0 == if start + timeout <= u64::MAX {
                start + timeout
            } else {
                u64::MAX as int
            },
            max_retries matches Some(max_retries) ==> 0 < max_retries && retry_num <= max_retries,
            INITIAL_MAX_BACKTRACKS + retry_num <= max_backtracks,
            retry_num > 0 ==> INITIAL_MAX_BACKTRACKS + retry_num <= size,
        decreases size - retry_num,
    {
        if let Some(max_retries) = max_retries {
            if retry_num >= max_retries {
                return Err(FillFailure::HardFailure);
            }
        }
        match find_fill_for_seed(config, &slots, deadline, max_backtracks, retry_num, driver) {
            Ok(success) => {
                let attempt: Statistics = success.statistics;
                let end: u64 = driver.now();
                let ghost last_asked: D = *driver;
                assert(call_ensures(D::now, (&last_asked,), end));
                let statistics: Statistics = Statistics {
                    states: attempt.states,
                    backtracks: attempt.backtracks,
                    restricted_branchings: attempt.restricted_branchings,
                    retries: retry_num as usize,
                    total_time: end.saturating_sub(start),
                    try_time: attempt.total_time,
                    initial_arc_consistency_time,
                    choice_arc_consistency_time: attempt.choice_arc_consistency_time,
                    elimination_arc_consistency_time: attempt.elimination_arc_consistency_time,
                };
                assert(is_limit_after::<D>(limits, max_backtracks));
                return Ok(FillSuccess { statistics, choices: success.choices });
            },
            Err(FillFailure::ExceededBacktrackLimit(_)) => {
                // Ensure that we always increase the limit by at least 1.
                let wanted: usize = driver.grow_backtrack_limit(max_backtracks);
                let limit: usize = next_limit(max_backtracks, wanted);
                proof {
                    let asked: D = *driver;
                    assert(call_ensures(D::grow_backtrack_limit, (&asked, max_backtracks), wanted));
                    let longer = limits.push(max_backtracks);
                    assert forall|i: int| 0 < i < longer.len() implies is_next_limit::<D>(
                        longer[i - 1],
                        #[trigger] longer[i],
                    ) by {
                        if i < limits.len() {
                            assert(longer[i] == limits[i]);
                        }
                    }
                    assert forall|i: int| 0 <= i < longer.len() implies is_attempt_with::<D>(
                        *config,
                        initial,
                        deadline,
                        i as u64,
                        (#[trigger] longer[i] + 1) as nat,
                    ) by {
                        if i < limits.len() {
                            assert(longer[i] == limits[i]);
                        }
                    }
                    limits = longer;
                }
                max_backtracks = limit;
                retry_num = retry_num + 1;
            },
            Err(failure) => {
                return Err(failure);
            },
        }
    }
}

/// Search for a valid fill for the given grid, if one can be found within the given amount of time
/// (in nanoseconds).
pub fn find_fill<D: SearchDriver>(
    config: &GridConfig,
    timeout: Option<u64>,
    driver: &mut D,
) -> (result: Result<FillSuccess, FillFailure>)
    requires
        config.wf(),
    ensures
        match result {
            Ok(success) => {
                &&& is_complete_fill(*config, success.choices@)
                &&& plausible(*config, success.statistics)
                &&& was_in_time::<D>(*config, timeout, success.statistics)
                &&& is_elapsed(*old(driver), *final(driver), success.statistics.total_time)
            },
            Err(FillFailure::HardFailure) => !fillable(*config),
            Err(FillFailure::Timeout) => timeout matches Some(timeout) && time_passed::<D>(timeout),
            Err(FillFailure::Abort) => config.abort && was_aborted::<D>(),
            Err(FillFailure::ExceededBacktrackLimit(_)) => false,
        },
        is_timed_search(*config, *old(driver), timeout, None, result),
        timeout is None && !config.abort ==> result is Ok == fillable(*config),
{
    find_fill_with_retries(config, timeout, None, driver)
}

/// Search for a valid fill for the given grid without a clock. After `MAX_RETRIES` attempts the grid
/// is taken to be unfillable, which it is for certain if it has fewer combinations of words.
pub fn find_fill_wasm<D: SearchDriver>(config: &GridConfig, driver: &mut D) -> (result: Result<
    FillSuccess,
    FillFailure,
>)
    requires
        config.wf(),
    ensures
        match result {
            Ok(success) => {
                &&& is_complete_fill(*config, success.choices@)
                &&& plausible(*config, success.statistics)
                &&& are_retried::<D>(*config, None, success.statistics.retries as nat)
                &&& was_in_time::<D>(*config, None, success.statistics)
                &&& is_elapsed(*old(driver), *final(driver), success.statistics.total_time)
                &&& success.statistics.retries < MAX_RETRIES
            },
            Err(FillFailure::HardFailure) => !fillable(*config) || (are_retried::<D>(
                *config,
                None,
                MAX_RETRIES as nat,
            ) && INITIAL_MAX_BACKTRACKS + MAX_RETRIES <= product(
                sizes(*config, start_state(*config)),
            )),
            Err(FillFailure::Timeout) => false,
            Err(FillFailure::Abort) => config.abort && was_aborted::<D>(),
            Err(FillFailure::ExceededBacktrackLimit(_)) => false,
        },
        is_timed_search(*config, *old(driver), None, Some(MAX_RETRIES), result),
        !config.abort && INITIAL_MAX_BACKTRACKS + MAX_RETRIES > product(
            sizes(*config, start_state(*config)),
        ) ==> result is Ok == fillable(*config),
{
    find_fill_with_retries(config, None, Some(MAX_RETRIES), driver)
}

/// Slots in the same state have the same words available.
proof fn lemma_same_slot(config: GridConfig, left: Seq<Slot>, right: Seq<Slot>, s: int)
    requires
        slots_wf(config, left),
        slots_wf(config, right),
        state_of(left) == state_of(right),
        0 <= s < left.len(),
    ensures
        left[s].id == right[s].id,
        left[s].eliminations@ == right[s].eliminations@,
{
    assert(state_of(left)[s] == state_of(right)[s]);
    assert(left[s].wf(config, s) && right[s].wf(config, s));
}

/// Slots that match the grid represent a state that does.
proof fn lemma_state_wf(config: GridConfig, slots: Seq<Slot>)
    requires
        slots_wf(config, slots),
    ensures
        state_wf(config, state_of(slots)),
{
    assert forall|s: int| 0 <= s < slots.len() implies (#[trigger] state_of(slots)[s]).wf(
        config,
        s,
    ) by {
        assert(slots[s].wf(config, s));
    }
}

/// A slot that is ranked before another one has a rank that is no higher, and the first one has the
/// lowest rank of all. Slots of the same rank are in the order that they were given in.
pub proof fn lemma_lowest_rank_first(
    slot_ids: Seq<SlotId>,
    ranks: Seq<i64>,
    position: int,
    slot_id: SlotId,
    later: int,
    later_slot_id: SlotId,
)
    requires
        slot_ids.len() == ranks.len(),
        ranks.len() <= usize::MAX,
        0 <= position < later < slot_ids.len(),
        is_ranked(slot_ids, ranks, position, slot_id),
        is_ranked(slot_ids, ranks, later, later_slot_id),
    ensures
        exists|i: int, k: int|
            #![trigger slot_ids[i], slot_ids[k]]
            {
                &&& 0 <= i < slot_ids.len()
                &&& 0 <= k < slot_ids.len()
                &&& slot_ids[i] == slot_id
                &&& slot_ids[k] == later_slot_id
                &&& ranks[i] < ranks[k] || (ranks[i] == ranks[k] && i < k)
            },
        position == 0 ==> exists|i: int|
            #![trigger slot_ids[i]]
            0 <= i < slot_ids.len() && slot_ids[i] == slot_id && forall|k: int|
                0 <= k < ranks.len() ==> ranks[i] <= #[trigger] ranks[k],
{
    let order = choose|order: Seq<usize>| #[trigger]
        is_stable_order(ranks, order) && slot_id == slot_ids[order[position] as int];
    let other = choose|order: Seq<usize>| #[trigger]
        is_stable_order(ranks, order) && later_slot_id == slot_ids[order[later] as int];
    lemma_stable_order_unique(ranks, order, other);
    let i = order[position] as int;
    let k = order[later] as int;
    assert(precedes(ranks, i, k));
    assert(order[position] < ranks.len() && order[later] < ranks.len());
    assert(slot_ids[i] == slot_id && slot_ids[k] == later_slot_id);
    if position == 0 {
        assert forall|m: int| 0 <= m < ranks.len() implies ranks[i] <= #[trigger] ranks[m] by {
            assert(order.contains(m as usize));
            let at = order.index_of(m as usize);
            if at > 0 {
                assert(precedes(ranks, order[0] as int, order[at] as int));
            }
        }
    }
}

/// The limit on backtracks becomes the smallest one that is as large as the driver wants and larger
/// than before.
pub proof fn lemma_limit_grows(max_backtracks: usize, wanted: usize, limit: int)
    ensures
        grown_limit(max_backtracks, wanted) > max_backtracks,
        grown_limit(max_backtracks, wanted) >= wanted,
        limit > max_backtracks && limit >= wanted ==> limit >= grown_limit(max_backtracks, wanted),
{
}

/// Each of the three best slots or words is taken twice as often as the next one.
pub proof fn lemma_better_twice_as_often(i: int)
    requires
        0 <= i < 2,
    ensures
        RANDOM_SLOT_WEIGHTS@.len() == 3,
        RANDOM_WORD_WEIGHTS@.len() == 3,
        RANDOM_SLOT_WEIGHTS@[i] == 2 * RANDOM_SLOT_WEIGHTS@[i + 1],
        RANDOM_WORD_WEIGHTS@[i] == 2 * RANDOM_WORD_WEIGHTS@[i + 1],
        RANDOM_SLOT_WEIGHTS@[i + 1] > 0,
        RANDOM_WORD_WEIGHTS@[i + 1] > 0,
{
}

} // verus!
