//! The states that a search goes through, and what its steps preserve.

use crate::counting::{
    lemma_product_factor, lemma_product_monotone, lemma_product_positive, lemma_tally_only,
    lemma_tally_positive, lemma_tally_single, lemma_tally_weaken, lemma_tally_withdraw,
    lemma_tally_witness,
    lemma_total_monotone, product, tally, total,
};
use crate::dupe_index::lemma_dupes_symmetric;
use crate::fill_model::{
    allows, apart, consistent, inhabited, is_fill, lemma_supported_shrink, nonempty, only, retains,
    settled, supported, within, Assignment, Domains,
};
use crate::grid_config::{Choice, GridConfig, SlotId};
use crate::slot::{not_eliminated, Slot, SlotState};
use crate::types::WordId;
use vstd::prelude::*;

verus! {

/// What is known about the words of every slot.
pub type GridState = Seq<SlotState>;

/// The state that a list of slots represents.
pub open spec fn state_of(slots: Seq<Slot>) -> GridState {
    slots.map_values(|slot: Slot| slot@)
}

/// The state fits the slots of the grid.
pub open spec fn state_wf(config: GridConfig, state: GridState) -> bool {
    &&& state.len() == config.slot_count()
    &&& forall|s: int| 0 <= s < state.len() ==> (#[trigger] state[s]).wf(config, s)
}

/// The words that each slot may be filled with.
pub open spec fn domains(config: GridConfig, state: GridState) -> Domains {
    Seq::new(state.len(), |s: int| state[s].domain(config.options(s)))
}

/// How many words each slot may be filled with.
pub open spec fn sizes(config: GridConfig, state: GridState) -> Seq<nat> {
    Seq::new(state.len(), |s: int| state[s].size(config.options(s)))
}

/// The slots whose word was chosen.
pub open spec fn chosen(state: GridState) -> Seq<bool> {
    Seq::new(state.len(), |s: int| state[s].fixed is Some)
}

/// The slots that only have one word left.
pub open spec fn decided(config: GridConfig, state: GridState) -> Seq<bool> {
    Seq::new(state.len(), |s: int| state[s].size(config.options(s)) == 1)
}

/// Every slot whose entry was given has its word chosen.
pub open spec fn given_chosen(config: GridConfig, state: GridState) -> bool {
    forall|s: int| 0 <= s < state.len() && #[trigger] config.prefilled(s) ==> state[s].fixed is Some
}

/// Every slot has a word left, and no slot rules out a word of another one, except that entries
/// which were both given may duplicate each other.
pub open spec fn stable(config: GridConfig, domains: Domains) -> bool {
    &&& domains.len() == config.slot_count()
    &&& inhabited(domains)
    &&& forall|i: int, c: int, j: int, d: int| #[trigger]
        config.crosses(i, c, j, d) ==> supported(config, domains, i, c, j, d)
    &&& forall|i: int, j: int|
        #![trigger apart(config, domains, i, j)]
        0 <= i < config.slot_count() && 0 <= j < config.slot_count() && i != j && !(
        config.prefilled(i) && config.prefilled(j)) ==> apart(config, domains, i, j)
}

/// Words that clash do so in either order.
proof fn lemma_clash_symmetric(config: GridConfig, i: int, u: WordId, j: int, v: WordId)
    requires
        config.wf(),
    ensures
        config.clash(i, u, j, v) == config.clash(j, v, i, u),
{
    lemma_dupes_symmetric(
        config.word_list.dupe_index.model(),
        (config.slot_configs@[i].length, u),
        (config.slot_configs@[j].length, v),
    );
}

/// A slot that crosses another one is crossed back by it.
pub proof fn lemma_crosses_back(config: GridConfig, i: int, c: int, j: int, d: int)
    requires
        config.wf(),
        config.crosses(i, c, j, d),
    ensures
        config.crosses(j, d, i, c),
        i != j,
{
    let crossing = config.slot_configs@[i].crossings@[c];
    assert(config.crossing_wf(i, c, crossing->Some_0));
}

/// If the only word left for `j` is supported by each word of `i`, it supports them.
proof fn lemma_single_supports(
    config: GridConfig,
    domains: Domains,
    i: int,
    c: int,
    j: int,
    d: int,
    v: WordId,
)
    requires
        config.wf(),
        config.crosses(i, c, j, d),
        supported(config, domains, j, d, i, c),
        only(domains[j], v),
        nonempty(domains[i]),
    ensures
        supported(config, domains, i, c, j, d),
{
    let u = choose|u: WordId| domains[i].contains(u);
    assert(domains[i].contains(u));
    let back = choose|x: WordId| #[trigger]
        domains[j].contains(x) && config.glyph(j, x, d) == config.glyph(i, u, c);
    assert(back == v);
    assert forall|x: WordId| #[trigger] domains[j].contains(x) implies exists|y: WordId| #[trigger]
        domains[i].contains(y) && config.glyph(i, y, c) == config.glyph(j, x, d) by {
        assert(domains[i].contains(u));
    }
}

/// If the only word left for `j` clashes with no word of `i`, they are apart either way.
proof fn lemma_single_apart(config: GridConfig, domains: Domains, i: int, j: int, v: WordId)
    requires
        config.wf(),
        apart(config, domains, j, i),
        only(domains[j], v),
    ensures
        apart(config, domains, i, j),
{
    assert forall|u: WordId, x: WordId|
        #![trigger domains[i].contains(u), domains[j].contains(x)]
        only(domains[i], u) && domains[j].contains(x) implies !config.clash(i, u, j, x) by {
        assert(x == v);
        assert(domains[j].contains(v) && domains[i].contains(u));
        lemma_clash_symmetric(config, i, u, j, v);
    }
}

/// Once the words that a grid rules out at the start are gone, it is stable.
pub proof fn lemma_stable_start(config: GridConfig, fixed: Seq<bool>, after: Domains)
    requires
        config.wf(),
        fixed.len() == config.slot_count(),
        forall|s: int| 0 <= s < fixed.len() ==> #[trigger] fixed[s] == config.prefilled(s),
        consistent(config, fixed, after),
        forall|s: int, w: WordId|
            0 <= s < after.len() && #[trigger] after[s].contains(w) ==> config.options(s).contains(
                w,
            ),
    ensures
        stable(config, after),
{
    assert forall|i: int, c: int, j: int, d: int| #[trigger] config.crosses(i, c, j, d) implies supported(
        config,
        after,
        i,
        c,
        j,
        d,
    ) by {
        lemma_crosses_back(config, i, c, j, d);
        assert(settled(config, fixed, after, i));
        assert(settled(config, fixed, after, j));
        assert(nonempty(after[i]) && nonempty(after[j]));
        if fixed[j] {
            let v = lemma_given_single(config, after, j);
            if !fixed[i] {
                lemma_single_supports(config, after, i, c, j, d, v);
            } else {
                let u = lemma_given_single(config, after, i);
                lemma_given_agree(config, i, c, u, j, d, v);
                assert(after[i].contains(u));
                assert forall|x: WordId| #[trigger] after[j].contains(x) implies exists|y: WordId|
                    #[trigger]
                    after[i].contains(y) && config.glyph(i, y, c) == config.glyph(j, x, d) by {
                    assert(x == v);
                    assert(after[i].contains(u));
                }
            }
        }
    }
    assert forall|i: int, j: int|
        #![trigger apart(config, after, i, j)]
        0 <= i < config.slot_count() && 0 <= j < config.slot_count() && i != j && !(
        config.prefilled(i) && config.prefilled(j)) implies apart(config, after, i, j) by {
        assert(settled(config, fixed, after, i));
        assert(settled(config, fixed, after, j));
        assert(fixed[i] == config.prefilled(i));
        assert(fixed[j] == config.prefilled(j));
        if fixed[j] {
            let v = lemma_given_single(config, after, j);
            assert(apart(config, after, j, i));
            lemma_single_apart(config, after, i, j, v);
        }
    }
}

/// A slot whose entry was given has one word.
proof fn lemma_given_single(config: GridConfig, domains: Domains, s: int) -> (word: WordId)
    requires
        config.wf(),
        domains.len() == config.slot_count(),
        0 <= s < domains.len(),
        config.prefilled(s),
        nonempty(domains[s]),
        forall|t: int, w: WordId|
            0 <= t < domains.len() && #[trigger] domains[t].contains(w) ==> config.options(
                t,
            ).contains(w),
    ensures
        only(domains[s], word),
        word == config.options(s)[0],
        config.options(s).len() == 1,
{
    assert(config.slot_wf(s));
    let options = config.options(s);
    let w = choose|w: WordId| domains[s].contains(w);
    assert(options.contains(w));
    assert forall|x: WordId| domains[s].contains(x) implies x == options[0] by {
        let k = options.index_of(x);
        assert(options[k] == x);
    }
    assert(options[options.index_of(w)] == w);
    options[0]
}

/// Entries that were both given agree where they cross.
proof fn lemma_given_agree(
    config: GridConfig,
    i: int,
    c: int,
    u: WordId,
    j: int,
    d: int,
    v: WordId,
)
    requires
        config.wf(),
        config.crosses(i, c, j, d),
        config.prefilled(i),
        config.prefilled(j),
        config.options(i).len() == 1,
        config.options(j).len() == 1,
        u == config.options(i)[0],
        v == config.options(j)[0],
    ensures
        config.glyph(i, u, c) == config.glyph(j, v, d),
{
    lemma_crosses_back(config, i, c, j, d);
    let crossing = config.slot_configs@[i].crossings@[c];
    assert(config.crossing_wf(i, c, crossing->Some_0));
    let width = config.width as int;
    assert(config.slot_configs@[i].fill_index(c, width) == config.slot_configs@[j].fill_index(
        d,
        width,
    ));
    assert(config.options_match_fill(i));
    assert(config.options_match_fill(j));
    assert(config.fill@[config.slot_configs@[i].fill_index(c, width)] is Some);
    assert(config.glyph(i, config.options(i)[0], c) == config.glyph(j, config.options(j)[0], d));
}

/// After one slot of a stable grid has lost words and what that rules out is gone, the grid is
/// stable again.
pub proof fn lemma_stable_step(
    config: GridConfig,
    fixed: Seq<bool>,
    start: Domains,
    changed: Domains,
    after: Domains,
    e: int,
)
    requires
        config.wf(),
        stable(config, start),
        changed.len() == start.len(),
        within(changed, start),
        0 <= e < start.len(),
        forall|s: int| 0 <= s < start.len() && s != e ==> changed[s] == start[s],
        fixed.len() == config.slot_count(),
        forall|s: int|
            0 <= s < fixed.len() ==> #[trigger] fixed[s] == (exists|w: WordId| only(changed[s], w)),
        consistent(config, fixed, after),
        within(after, changed),
    ensures
        stable(config, after),
{
    assert forall|i: int, c: int, j: int, d: int| #[trigger] config.crosses(i, c, j, d) implies supported(
        config,
        after,
        i,
        c,
        j,
        d,
    ) by {
        lemma_crosses_back(config, i, c, j, d);
        assert(settled(config, fixed, after, i));
        assert(settled(config, fixed, after, j));
        assert(nonempty(after[i]) && nonempty(after[j]));
        if fixed[j] {
            let v = choose|w: WordId| only(changed[j], w);
            lemma_single_kept(changed, after, j, v);
            if !fixed[i] {
                lemma_single_supports(config, after, i, c, j, d, v);
            } else {
                let u = choose|w: WordId| only(changed[i], w);
                lemma_single_kept(changed, after, i, u);
                assert(start[i].contains(u) && start[j].contains(v));
                if i != e {
                    assert(supported(config, start, i, c, j, d));
                    let x = choose|x: WordId| #[trigger]
                        start[i].contains(x) && config.glyph(i, x, c) == config.glyph(j, v, d);
                    assert(x == u);
                } else {
                    assert(supported(config, start, j, d, i, c));
                    let x = choose|x: WordId| #[trigger]
                        start[j].contains(x) && config.glyph(j, x, d) == config.glyph(i, u, c);
                    assert(x == v);
                }
                assert forall|x: WordId| #[trigger] after[j].contains(x) implies exists|y: WordId|
                    #[trigger]
                    after[i].contains(y) && config.glyph(i, y, c) == config.glyph(j, x, d) by {
                    assert(x == v);
                    assert(after[i].contains(u));
                }
            }
        }
    }
    assert forall|i: int, j: int|
        #![trigger apart(config, after, i, j)]
        0 <= i < config.slot_count() && 0 <= j < config.slot_count() && i != j && !(
        config.prefilled(i) && config.prefilled(j)) implies apart(config, after, i, j) by {
        assert(settled(config, fixed, after, i));
        assert(settled(config, fixed, after, j));
        if fixed[j] {
            let v = choose|w: WordId| only(changed[j], w);
            assert(nonempty(after[j]) && nonempty(after[i]));
            lemma_single_kept(changed, after, j, v);
            if !fixed[i] {
                assert(apart(config, after, j, i));
                lemma_single_apart(config, after, i, j, v);
            } else {
                let u = choose|w: WordId| only(changed[i], w);
                lemma_single_kept(changed, after, i, u);
                assert(start[i].contains(u) && start[j].contains(v));
                assert(apart(config, start, i, j));
                assert(apart(config, start, j, i));
                lemma_clash_symmetric(config, i, u, j, v);
                if i != e {
                    assert(only(start[i], u));
                } else {
                    assert(only(start[j], v));
                }
                assert(!config.clash(i, u, j, v));
            }
        }
    }
}

/// A slot with one word that still has a word has the same one.
proof fn lemma_single_kept(before: Domains, after: Domains, s: int, word: WordId)
    requires
        within(after, before),
        0 <= s < after.len(),
        only(before[s], word),
        nonempty(after[s]),
    ensures
        only(after[s], word),
{
    let w = choose|w: WordId| after[s].contains(w);
    assert(before[s].contains(w));
    assert forall|x: WordId| after[s].contains(x) implies x == word by {
        assert(before[s].contains(x));
    }
}

/// In a stable grid every slot but the one that lost words is settled.
pub proof fn lemma_stable_elsewhere(
    config: GridConfig,
    fixed: Seq<bool>,
    start: Domains,
    changed: Domains,
    e: int,
    i: int,
)
    requires
        config.wf(),
        stable(config, start),
        within(changed, start),
        forall|s: int| 0 <= s < start.len() && s != e ==> changed[s] == start[s],
        fixed.len() == config.slot_count(),
        forall|s: int| 0 <= s < fixed.len() && config.prefilled(s) ==> #[trigger] fixed[s],
        0 <= i < start.len(),
        i != e,
    ensures
        settled(config, fixed, changed, i),
{
    assert forall|c: int, j: int, d: int| #[trigger]
        config.crosses(i, c, j, d) && !fixed[j] implies supported(
        config,
        changed,
        i,
        c,
        j,
        d,
    ) by {
        lemma_supported_shrink(config, start, changed, i, c, j, d);
    }
    assert forall|j: int|
        #![trigger apart(config, changed, i, j)]
        0 <= j < config.slot_count() && j != i && !fixed[j] implies apart(
        config,
        changed,
        i,
        j,
    ) by {
        assert(apart(config, start, i, j));
        assert forall|u: WordId, v: WordId|
            #![trigger changed[i].contains(u), changed[j].contains(v)]
            only(changed[i], u) && changed[j].contains(v) implies !config.clash(i, u, j, v) by {
            assert(start[i].contains(u));
            assert(start[j].contains(v));
        }
    }
}

/// If one word is left for every slot of a stable grid, these words are a fill.
pub proof fn lemma_stable_fill(config: GridConfig, domains: Domains, words: Assignment)
    requires
        config.wf(),
        stable(config, domains),
        words.len() == config.slot_count(),
        forall|s: int| 0 <= s < words.len() ==> only(#[trigger] domains[s], words[s]),
        forall|s: int| 0 <= s < words.len() ==> config.options(s).contains(#[trigger] words[s]),
    ensures
        is_fill(config, words),
{
    assert forall|i: int, c: int, j: int, d: int| #[trigger] config.crosses(i, c, j, d) implies config.glyph(
        i,
        words[i],
        c,
    ) == config.glyph(j, words[j], d) by {
        lemma_crosses_back(config, i, c, j, d);
        assert(supported(config, domains, i, c, j, d));
        assert(only(domains[i], words[i]) && only(domains[j], words[j]));
        assert(domains[j].contains(words[j]));
        let x = choose|x: WordId| #[trigger]
            domains[i].contains(x) && config.glyph(i, x, c) == config.glyph(j, words[j], d);
        assert(x == words[i]);
    }
    assert forall|i: int, j: int|
        #![trigger config.clash(i, words[i], j, words[j])]
        0 <= i < config.slot_count() && 0 <= j < config.slot_count() && i != j && !(
        config.prefilled(i) && config.prefilled(j)) implies !config.clash(
        i,
        words[i],
        j,
        words[j],
    ) by {
        assert(apart(config, domains, i, j));
        assert(only(domains[i], words[i]) && only(domains[j], words[j]));
        assert(domains[i].contains(words[i]) && domains[j].contains(words[j]));
    }
}

/// How the number of words left for a slot relates to the words themselves.
pub proof fn lemma_size(config: GridConfig, slot: SlotState, s: int)
    requires
        config.wf(),
        0 <= s < config.slot_count(),
        slot.wf(config, s),
    ensures
        slot.size(config.options(s)) >= 1 <==> nonempty(slot.domain(config.options(s))),
        slot.size(config.options(s)) == 1 <==> exists|w: WordId|
            only(slot.domain(config.options(s)), w),
        forall|w: WordId|
            slot.domain(config.options(s)).contains(w) ==> config.options(s).contains(w),
{
    assert(config.slot_wf(s));
    let options = config.options(s);
    let domain = slot.domain(options);
    match slot.fixed {
        Some(word) => {
            assert(domain.contains(word));
            assert(only(domain, word));
        },
        None => {
            let open = not_eliminated(slot.eliminations);
            if nonempty(domain) {
                let w = choose|w: WordId| domain.contains(w);
                lemma_tally_positive(options, open, options.index_of(w));
            }
            if tally(options, open) >= 1 {
                let k = lemma_tally_witness(options, open);
                assert(domain.contains(options[k]));
            }
            if exists|w: WordId| only(domain, w) {
                let w = choose|w: WordId| only(domain, w);
                assert forall|other: WordId| #[trigger]
                    options.contains(other) && open(other) implies other == w by {
                    assert(domain.contains(other));
                }
                lemma_tally_only(options, open, w);
            }
            if tally(options, open) == 1 {
                let k = lemma_tally_witness(options, open);
                assert(domain.contains(options[k]));
                assert forall|x: WordId| domain.contains(x) implies x == options[k] by {
                    let m = options.index_of(x);
                    lemma_tally_single(options, open, k, m);
                }
                assert(only(domain, options[k]));
            }
        },
    }
}

/// The state after a word was chosen for a slot.
pub open spec fn with_choice(state: GridState, choice: Choice) -> GridState {
    state.update(
        choice.slot_id as int,
        state[choice.slot_id as int].fix(Some(choice.word_id)),
    )
}

/// The state after a word of a slot was ruled out.
pub open spec fn with_elimination(
    state: GridState,
    choice: Choice,
    blamed: Option<SlotId>,
) -> GridState {
    state.update(
        choice.slot_id as int,
        state[choice.slot_id as int].eliminate(choice.word_id, blamed),
    )
}

/// The words of slots without a choice that `after` rules out beyond `before` are all blamed on
/// `blamed`, and nothing else differs.
pub open spec fn propagated(
    before: GridState,
    after: GridState,
    blamed: Option<SlotId>,
) -> bool {
    &&& after.len() == before.len()
    &&& forall|s: int|
        0 <= s < before.len() ==> slot_propagated(#[trigger] before[s], after[s], blamed)
}

/// The part of `propagated` for one slot.
pub open spec fn slot_propagated(
    before: SlotState,
    after: SlotState,
    blamed: Option<SlotId>,
) -> bool {
    &&& after.fixed == before.fixed
    &&& before.fixed is Some ==> after == before
    &&& after.eliminations.len() == before.eliminations.len()
    &&& forall|w: int|
        0 <= w < before.eliminations.len() ==> (#[trigger] after.eliminations[w]
            == before.eliminations[w] || (before.eliminations[w] is None && after.eliminations[w]
            == Some(blamed)))
}

/// The word of the choice may be chosen for its slot, and so may another one.
pub open spec fn choosable(config: GridConfig, state: GridState, choice: Choice) -> bool {
    let s = choice.slot_id as int;
    &&& s < config.slot_count()
    &&& state[s].fixed is None
    &&& state[s].domain(config.options(s)).contains(choice.word_id)
    &&& state[s].size(config.options(s)) >= 2
}

/// The words have the chosen ones among them.
pub open spec fn follows(words: Assignment, choices: Seq<Choice>) -> bool {
    forall|k: int|
        0 <= k < choices.len() ==> words[(#[trigger] choices[k]).slot_id as int]
            == choices[k].word_id
}

/// The words are a fill, from among those that a search starts with.
pub open spec fn is_left(config: GridConfig, base: Domains, words: Assignment) -> bool {
    is_fill(config, words) && allows(base, words)
}

/// Every fill that has the chosen words is still possible.
pub open spec fn covers(config: GridConfig, base: Domains, choices: Seq<Choice>, state: GridState) -> bool {
    forall|words: Assignment| #[trigger]
        is_left(config, base, words) && follows(words, choices) ==> allows(
            domains(config, state),
            words,
        )
}

/// Every fill that `before` allows is still allowed by `after`.
pub open spec fn keeps_fills(config: GridConfig, before: GridState, after: GridState) -> bool {
    forall|words: Assignment| #[trigger]
        is_fill(config, words) && allows(domains(config, before), words) ==> allows(
            domains(config, after),
            words,
        )
}

/// The state allows no fill.
pub open spec fn rules_out_fills(config: GridConfig, state: GridState) -> bool {
    forall|words: Assignment| #[trigger]
        is_fill(config, words) ==> !allows(domains(config, state), words)
}

/// No fill that has the chosen words has this one too.
pub open spec fn refuted(config: GridConfig, base: Domains, choices: Seq<Choice>, choice: Choice) -> bool {
    forall|words: Assignment| #[trigger]
        is_left(config, base, words) && follows(words, choices) ==> words[choice.slot_id as int]
            != choice.word_id
}

/// No fill has the chosen words.
pub open spec fn hopeless(config: GridConfig, base: Domains, choices: Seq<Choice>) -> bool {
    forall|words: Assignment| #[trigger] is_left(config, base, words) ==> !follows(words, choices)
}

/// A word was chosen for the slot.
pub open spec fn chosen_for(choices: Seq<Choice>, slot: SlotId) -> bool {
    exists|k: int| 0 <= k < choices.len() && (#[trigger] choices[k]).slot_id == slot
}

/// Only choices that were made are blamed for eliminations.
pub open spec fn blames_choices(choices: Seq<Choice>, slot: SlotState) -> bool {
    forall|w: int|
        0 <= w < slot.eliminations.len() ==> match #[trigger] slot.eliminations[w] {
            Some(Some(blamed)) => chosen_for(choices, blamed),
            _ => true,
        }
}

/// The state is what the choices lead to.
pub open spec fn node_ok(config: GridConfig, base: Domains, choices: Seq<Choice>, state: GridState) -> bool {
    &&& state_wf(config, state)
    &&& given_chosen(config, state)
    &&& stable(config, domains(config, state))
    &&& within(domains(config, state), base)
    &&& covers(config, base, choices, state)
    &&& forall|k: int|
        0 <= k < choices.len() ==> (#[trigger] choices[k]).slot_id < config.slot_count()
            && state[choices[k].slot_id as int].fixed is Some
    &&& forall|s: int|
        0 <= s < state.len() ==> blames_choices(choices, #[trigger] state[s])
}

/// The state `after` is `before` with the choice and with eliminations blamed on it.
pub open spec fn edge_ok(
    config: GridConfig,
    before: GridState,
    after: GridState,
    choice: Choice,
) -> bool {
    &&& choosable(config, before, choice)
    &&& propagated(with_choice(before, choice), after, Some(choice.slot_id))
    &&& forall|s: int, w: int|
        0 <= s < before.len() && 0 <= w < before[s].eliminations.len()
            ==> #[trigger] before[s].eliminations[w] != Some(Some(choice.slot_id))
}

/// The states along the choices lead to the current one.
pub open spec fn path_ok(
    config: GridConfig,
    base: Domains,
    history: Seq<GridState>,
    choices: Seq<Choice>,
    current: GridState,
) -> bool
    decreases choices.len(),
{
    &&& history.len() == choices.len()
    &&& node_ok(config, base, choices, current)
    &&& choices.len() > 0 ==> {
        &&& edge_ok(config, history.last(), current, choices.last())
        &&& path_ok(config, base, history.drop_last(), choices.drop_last(), history.last())
    }
}

/// The state without a choice and the eliminations that it is to blame for.
pub open spec fn without_choice(state: GridState, slot_id: SlotId) -> GridState {
    Seq::new(
        state.len(),
        |s: int|
            if s == slot_id {
                state[s].fix(None)
            } else if state[s].fixed is None {
                state[s].forgive(slot_id)
            } else {
                state[s]
            },
    )
}

/// The slot that eliminations are blamed on after these choices.
pub open spec fn blamed_slot(choices: Seq<Choice>) -> Option<SlotId> {
    if choices.len() == 0 {
        None
    } else {
        Some(choices.last().slot_id)
    }
}

/// A choice whose consequences leave every slot with words extends the path.
pub proof fn lemma_advance(
    config: GridConfig,
    base: Domains,
    history: Seq<GridState>,
    choices: Seq<Choice>,
    current: GridState,
    choice: Choice,
    after: GridState,
)
    requires
        config.wf(),
        path_ok(config, base, history, choices, current),
        choosable(config, current, choice),
        propagated(with_choice(current, choice), after, Some(choice.slot_id)),
        state_wf(config, after),
        stable(config, domains(config, after)),
        keeps_fills(config, with_choice(current, choice), after),
    ensures
        path_ok(config, base, history.push(current), choices.push(choice), after),
{
    let mid = with_choice(current, choice);
    let slot = choice.slot_id as int;
    let longer = choices.push(choice);
    assert(longer.drop_last() =~= choices);
    assert(history.push(current).drop_last() =~= history);
    assert(!chosen_for(choices, choice.slot_id)) by {
        if chosen_for(choices, choice.slot_id) {
            let k = choose|k: int|
                0 <= k < choices.len() && (#[trigger] choices[k]).slot_id == choice.slot_id;
            assert(current[choices[k].slot_id as int].fixed is Some);
        }
    }
    assert forall|s: int, w: int|
        0 <= s < current.len() && 0 <= w < current[s].eliminations.len() implies #[trigger] current[s].eliminations[w]
        != Some(Some(choice.slot_id)) by {
        assert(blames_choices(choices, current[s]));
    }
    assert(edge_ok(config, current, after, choice));
    lemma_propagated_within(config, mid, after, Some(choice.slot_id));
    assert(within(domains(config, after), base)) by {
        assert forall|s: int, w: WordId|
            0 <= s < after.len() && #[trigger] domains(config, after)[s].contains(
                w,
            ) implies base[s].contains(w) by {
            assert(domains(config, mid)[s].contains(w));
            assert(domains(config, current)[s].contains(w));
        }
    }
    assert(covers(config, base, longer, after)) by {
        assert forall|words: Assignment| #[trigger]
            is_left(config, base, words) && follows(words, longer) implies allows(
            domains(config, after),
            words,
        ) by {
            assert forall|k: int| 0 <= k < choices.len() implies words[(
            #[trigger] choices[k]).slot_id as int] == choices[k].word_id by {
                assert(longer[k] == choices[k]);
            }
            assert(follows(words, choices));
            assert(longer[choices.len() as int] == choice);
            assert(allows(domains(config, current), words));
            assert(allows(domains(config, mid), words)) by {
                assert forall|s: int| 0 <= s < words.len() implies (
                #[trigger] domains(config, mid)[s]).contains(words[s]) by {
                    assert(domains(config, current)[s].contains(words[s]));
                }
            }
        }
    }
    assert forall|s: int| 0 <= s < after.len() && #[trigger] config.prefilled(s) implies after[s].fixed
        is Some by {
        assert(slot_propagated(mid[s], after[s], Some(choice.slot_id)));
        assert(current[s].fixed is Some);
    }
    assert forall|k: int| 0 <= k < longer.len() implies (#[trigger] longer[k]).slot_id
        < config.slot_count() && after[longer[k].slot_id as int].fixed is Some by {
        if k < choices.len() {
            assert(longer[k] == choices[k]);
        }
        let s = longer[k].slot_id as int;
        assert(slot_propagated(mid[s], after[s], Some(choice.slot_id)));
    }
    assert forall|s: int| 0 <= s < after.len() implies blames_choices(longer, #[trigger] after[s]) by {
        assert(slot_propagated(mid[s], after[s], Some(choice.slot_id)));
        assert(blames_choices(choices, current[s]));
        assert forall|w: int| 0 <= w < after[s].eliminations.len() implies match #[trigger] after[s].eliminations[w] {
            Some(Some(blamed)) => chosen_for(longer, blamed),
            _ => true,
        } by {
            assert(longer[choices.len() as int] == choice);
            assert(mid[s].eliminations == current[s].eliminations);
            if let Some(Some(blamed)) = after[s].eliminations[w] {
                if current[s].eliminations[w] == Some(Some(blamed)) {
                    assert(chosen_for(choices, blamed));
                    let k = choose|k: int|
                        0 <= k < choices.len() && (#[trigger] choices[k]).slot_id == blamed;
                    assert(longer[k].slot_id == blamed);
                }
            }
        }
    }
}

/// Ruling out a refuted choice, with consequences that leave every slot with words, stays on the
/// path.
pub proof fn lemma_narrow(
    config: GridConfig,
    base: Domains,
    history: Seq<GridState>,
    choices: Seq<Choice>,
    current: GridState,
    choice: Choice,
    after: GridState,
)
    requires
        config.wf(),
        path_ok(config, base, history, choices, current),
        choosable(config, current, choice),
        refuted(config, base, choices, choice),
        propagated(
            with_elimination(current, choice, blamed_slot(choices)),
            after,
            blamed_slot(choices),
        ),
        state_wf(config, after),
        stable(config, domains(config, after)),
        keeps_fills(config, with_elimination(current, choice, blamed_slot(choices)), after),
    ensures
        path_ok(config, base, history, choices, after),
{
    let blamed = blamed_slot(choices);
    let mid = with_elimination(current, choice, blamed);
    let slot = choice.slot_id as int;
    assert(config.slot_wf(slot));
    assert(current[slot].wf(config, slot));
    lemma_propagated_within(config, mid, after, blamed);
    assert(within(domains(config, after), base)) by {
        assert forall|s: int, w: WordId|
            0 <= s < after.len() && #[trigger] domains(config, after)[s].contains(
                w,
            ) implies base[s].contains(w) by {
            assert(domains(config, mid)[s].contains(w));
            assert(config.slot_wf(s));
            let options = config.options(s);
            if mid[s].fixed is None {
                assert(options[options.index_of(w)] == w);
            }
            assert(domains(config, current)[s].contains(w));
        }
    }
    assert(covers(config, base, choices, after)) by {
        assert forall|words: Assignment| #[trigger]
            is_left(config, base, words) && follows(words, choices) implies allows(
            domains(config, after),
            words,
        ) by {
            assert(allows(domains(config, current), words));
            assert(allows(domains(config, mid), words)) by {
                assert forall|s: int| 0 <= s < words.len() implies (
                #[trigger] domains(config, mid)[s]).contains(words[s]) by {
                    assert(domains(config, current)[s].contains(words[s]));
                }
            }
        }
    }
    assert forall|s: int| 0 <= s < after.len() && #[trigger] config.prefilled(s) implies after[s].fixed
        is Some by {
        assert(slot_propagated(mid[s], after[s], blamed));
        assert(current[s].fixed is Some);
    }
    assert forall|k: int| 0 <= k < choices.len() implies (#[trigger] choices[k]).slot_id
        < config.slot_count() && after[choices[k].slot_id as int].fixed is Some by {
        let s = choices[k].slot_id as int;
        assert(slot_propagated(mid[s], after[s], blamed));
    }
    assert forall|s: int| 0 <= s < after.len() implies blames_choices(choices, #[trigger] after[s]) by {
        assert(slot_propagated(mid[s], after[s], blamed));
        assert(blames_choices(choices, current[s]));
        assert forall|w: int| 0 <= w < after[s].eliminations.len() implies match #[trigger] after[s].eliminations[w] {
            Some(Some(b)) => chosen_for(choices, b),
            _ => true,
        } by {
            if let Some(Some(b)) = after[s].eliminations[w] {
                if current[s].eliminations[w] != Some(Some(b)) {
                    assert(blamed == Some(b));
                    assert(choices[choices.len() - 1].slot_id == b);
                }
            }
        }
    }
    if choices.len() > 0 {
        let last = choices.last();
        let before = history.last();
        assert(propagated(with_choice(before, last), after, Some(last.slot_id))) by {
            let start = with_choice(before, last);
            assert forall|s: int| 0 <= s < start.len() implies slot_propagated(
                #[trigger] start[s],
                after[s],
                Some(last.slot_id),
            ) by {
                assert(slot_propagated(start[s], current[s], Some(last.slot_id)));
                assert(slot_propagated(mid[s], after[s], blamed));
                assert(choices[choices.len() - 1] == last);
                assert(s == slot ==> start[s].fixed is None);
            }
        }
    }
}

/// Undoing the last choice of a hopeless path leads back to the state before it, where that choice
/// is refuted.
pub proof fn lemma_retreat(
    config: GridConfig,
    base: Domains,
    history: Seq<GridState>,
    choices: Seq<Choice>,
    current: GridState,
)
    requires
        config.wf(),
        path_ok(config, base, history, choices, current),
        choices.len() > 0,
        hopeless(config, base, choices),
    ensures
        without_choice(current, choices.last().slot_id) == history.last(),
        path_ok(config, base, history.drop_last(), choices.drop_last(), history.last()),
        choosable(config, history.last(), choices.last()),
        refuted(config, base, choices.drop_last(), choices.last()),
{
    let last = choices.last();
    let before = history.last();
    let start = with_choice(before, last);
    let back = without_choice(current, last.slot_id);
    reveal_with_fuel(path_ok, 2);
    assert(state_wf(config, before));
    assert forall|s: int| 0 <= s < before.len() implies back[s] == #[trigger] before[s] by {
        assert(slot_propagated(start[s], current[s], Some(last.slot_id)));
        if s == last.slot_id {
            assert(back[s] =~= before[s]);
        } else if before[s].fixed is None {
            let cleared = current[s].forgive(last.slot_id);
            assert forall|w: int| 0 <= w < before[s].eliminations.len() implies cleared.eliminations[w]
                == #[trigger] before[s].eliminations[w] by {
                assert(before[s].eliminations[w] != Some(Some(last.slot_id)));
            }
            assert(cleared =~= before[s]);
        }
    }
    assert(back =~= before);
    assert forall|words: Assignment| #[trigger]
        is_left(config, base, words) && follows(words, choices.drop_last()) implies words[last.slot_id as int]
        != last.word_id by {
        if words[last.slot_id as int] == last.word_id {
            assert forall|k: int| 0 <= k < choices.len() implies words[(
            #[trigger] choices[k]).slot_id as int] == choices[k].word_id by {
                if k < choices.len() - 1 {
                    assert(choices.drop_last()[k] == choices[k]);
                }
            }
            assert(follows(words, choices));
        }
    }
}

/// The combinations of words that the choices along a path have set aside.
pub open spec fn pending(
    config: GridConfig,
    history: Seq<GridState>,
    choices: Seq<Choice>,
) -> int
    decreases choices.len(),
{
    if choices.len() == 0 {
        0
    } else {
        pending(config, history.drop_last(), choices.drop_last()) + others(
            config,
            history.last(),
            choices.last(),
        )
    }
}

/// The combinations of words that don't have the chosen one.
pub open spec fn others(config: GridConfig, state: GridState, choice: Choice) -> int {
    product(sizes(config, state)) - product(
        sizes(config, state).update(choice.slot_id as int, 1),
    )
}

/// The combinations of words that a search may still go through.
pub open spec fn work(
    config: GridConfig,
    history: Seq<GridState>,
    choices: Seq<Choice>,
    current: GridState,
) -> int {
    pending(config, history, choices) + product(sizes(config, current))
}

/// Every slot of a stable grid has a word left.
pub proof fn lemma_sizes_positive(config: GridConfig, state: GridState)
    requires
        config.wf(),
        state_wf(config, state),
        inhabited(domains(config, state)),
    ensures
        forall|s: int| 0 <= s < state.len() ==> #[trigger] sizes(config, state)[s] >= 1,
        product(sizes(config, state)) >= 1,
{
    assert forall|s: int| 0 <= s < state.len() implies #[trigger] sizes(config, state)[s]
        >= 1 by {
        assert(state[s].wf(config, s));
        lemma_size(config, state[s], s);
        assert(nonempty(domains(config, state)[s]));
    }
    lemma_product_positive(sizes(config, state));
}

/// Setting a choice aside leaves combinations with and without it.
proof fn lemma_others(config: GridConfig, state: GridState, choice: Choice)
    requires
        config.wf(),
        state_wf(config, state),
        inhabited(domains(config, state)),
        choosable(config, state, choice),
    ensures
        1 <= others(config, state, choice) < product(sizes(config, state)),
        product(
            sizes(config, state).update(
                choice.slot_id as int,
                (sizes(config, state)[choice.slot_id as int] - 1) as nat,
            ),
        ) == others(config, state, choice),
{
    lemma_sizes_positive(config, state);
    let numbers = sizes(config, state);
    let s = choice.slot_id as int;
    let size = numbers[s];
    let rest = product(numbers.update(s, 1));
    lemma_product_factor(numbers, s);
    assert forall|i: int| 0 <= i < numbers.len() implies #[trigger] numbers.update(s, 1)[i]
        >= 1 by {
        assert(numbers[i] >= 1);
    }
    lemma_product_positive(numbers.update(s, 1));
    let fewer = numbers.update(s, (size - 1) as nat);
    lemma_product_factor(fewer, s);
    assert(fewer.update(s, 1) =~= numbers.update(s, 1));
    assert(size * rest - rest == (size - 1) * rest) by (nonlinear_arith);
    assert((size - 1) * rest >= 1) by (nonlinear_arith)
        requires
            size >= 2,
            rest >= 1,
    ;
}

/// Ruling out words leaves fewer of them.
pub proof fn lemma_sizes_propagated(
    config: GridConfig,
    before: GridState,
    after: GridState,
    blamed: Option<SlotId>,
)
    requires
        config.wf(),
        before.len() == config.slot_count(),
        forall|s: int|
            0 <= s < before.len() ==> (#[trigger] before[s]).eliminations.len()
                == config.word_list.words@[config.slot_length(s)]@.len(),
        propagated(before, after, blamed),
    ensures
        forall|s: int|
            0 <= s < before.len() ==> #[trigger] sizes(config, after)[s] <= sizes(
                config,
                before,
            )[s],
{
    assert forall|s: int| 0 <= s < before.len() implies #[trigger] sizes(config, after)[s]
        <= sizes(config, before)[s] by {
        assert(slot_propagated(before[s], after[s], blamed));
        assert(config.slot_wf(s));
        let options = config.options(s);
        if before[s].fixed is None {
            let p = not_eliminated(after[s].eliminations);
            let q = not_eliminated(before[s].eliminations);
            assert forall|i: int| 0 <= i < options.len() && p(#[trigger] options[i]) implies q(
                options[i],
            ) by {
                let w = options[i] as int;
                assert(0 <= w < before[s].eliminations.len());
                assert(after[s].eliminations[w] == before[s].eliminations[w] || after[s].eliminations[w]
                    is Some);
            }
            lemma_tally_weaken(options, p, q);
        }
    }
}

/// A search that advances has no more work than before, and fewer words.
pub proof fn lemma_work_advance(
    config: GridConfig,
    history: Seq<GridState>,
    choices: Seq<Choice>,
    current: GridState,
    choice: Choice,
    after: GridState,
)
    requires
        config.wf(),
        state_wf(config, current),
        inhabited(domains(config, current)),
        choosable(config, current, choice),
        propagated(with_choice(current, choice), after, Some(choice.slot_id)),
    ensures
        work(config, history.push(current), choices.push(choice), after) <= work(
            config,
            history,
            choices,
            current,
        ),
        total(sizes(config, after)) < total(sizes(config, current)),
{
    let mid = with_choice(current, choice);
    let s = choice.slot_id as int;
    assert(choices.push(choice).drop_last() =~= choices);
    assert(history.push(current).drop_last() =~= history);
    assert forall|t: int| 0 <= t < mid.len() implies (#[trigger] mid[t]).eliminations.len()
        == config.word_list.words@[config.slot_length(t)]@.len() by {
        assert(current[t].wf(config, t));
    }
    lemma_sizes_propagated(config, mid, after, Some(choice.slot_id));
    assert(sizes(config, mid) =~= sizes(config, current).update(s, 1));
    lemma_product_monotone(sizes(config, after), sizes(config, mid));
    lemma_sizes_positive(config, current);
    assert forall|t: int| 0 <= t < mid.len() implies #[trigger] sizes(config, after)[t] <= sizes(
        config,
        current,
    )[t] by {
        assert(sizes(config, after)[t] <= sizes(config, mid)[t]);
    }
    assert(sizes(config, after)[s] <= sizes(config, mid)[s]);
    lemma_total_monotone(sizes(config, after), sizes(config, current), s);
}

/// A search that rules out a choice has less work than before.
pub proof fn lemma_work_narrow(
    config: GridConfig,
    history: Seq<GridState>,
    choices: Seq<Choice>,
    current: GridState,
    choice: Choice,
    blamed: Option<SlotId>,
    after: GridState,
)
    requires
        config.wf(),
        state_wf(config, current),
        inhabited(domains(config, current)),
        choosable(config, current, choice),
        propagated(with_elimination(current, choice, blamed), after, blamed),
    ensures
        work(config, history, choices, after) <= pending(config, history, choices) + others(
            config,
            current,
            choice,
        ),
{
    let mid = with_elimination(current, choice, blamed);
    let s = choice.slot_id as int;
    assert(config.slot_wf(s));
    assert(config.options(s)[config.options(s).index_of(choice.word_id)] == choice.word_id);
    assert forall|t: int| 0 <= t < mid.len() implies (#[trigger] mid[t]).eliminations.len()
        == config.word_list.words@[config.slot_length(t)]@.len() by {
        assert(current[t].wf(config, t));
    }
    lemma_sizes_propagated(config, mid, after, blamed);
    let numbers = sizes(config, current);
    let fewer = numbers.update(s, (numbers[s] - 1) as nat);
    assert(sizes(config, mid)[s] == numbers[s] - 1) by {
        let options = config.options(s);
        let p = not_eliminated(current[s].eliminations);
        let q = not_eliminated(mid[s].eliminations);
        assert(options.contains(choice.word_id));
        let at = options.index_of(choice.word_id);
        assert(current[s].wf(config, s));
        assert forall|i: int| 0 <= i < options.len() && options[i] != options[at] implies p(
            #[trigger] options[i],
        ) == q(options[i]) by {}
        lemma_tally_withdraw(options, p, q, at);
    }
    assert(sizes(config, mid) =~= fewer);
    lemma_product_monotone(sizes(config, after), sizes(config, mid));
    lemma_others(config, current, choice);
}

/// Ruling out a choice leaves less work than making it.
pub proof fn lemma_work_refute(
    config: GridConfig,
    history: Seq<GridState>,
    choices: Seq<Choice>,
    current: GridState,
    choice: Choice,
)
    requires
        config.wf(),
        state_wf(config, current),
        inhabited(domains(config, current)),
        choosable(config, current, choice),
    ensures
        pending(config, history, choices) < pending(config, history, choices) + others(
            config,
            current,
            choice,
        ) < work(config, history, choices, current),
{
    lemma_others(config, current, choice);
}

/// What is set aside along a path is never negative.
pub proof fn lemma_pending_bound(
    config: GridConfig,
    base: Domains,
    history: Seq<GridState>,
    choices: Seq<Choice>,
    current: GridState,
)
    requires
        config.wf(),
        path_ok(config, base, history, choices, current),
    ensures
        pending(config, history, choices) >= 0,
        work(config, history, choices, current) >= 1,
    decreases choices.len(),
{
    lemma_sizes_positive(config, current);
    if choices.len() > 0 {
        lemma_pending_bound(config, base, history.drop_last(), choices.drop_last(), history.last());
        reveal_with_fuel(path_ok, 2);
        lemma_others(config, history.last(), choices.last());
    }
}

/// Propagating a change only takes words away.
proof fn lemma_propagated_within(
    config: GridConfig,
    before: GridState,
    after: GridState,
    blamed: Option<SlotId>,
)
    requires
        config.wf(),
        state_wf(config, after),
        propagated(before, after, blamed),
    ensures
        within(domains(config, after), domains(config, before)),
{
    let inner = domains(config, after);
    let outer = domains(config, before);
    assert forall|s: int, w: WordId|
        0 <= s < inner.len() && #[trigger] inner[s].contains(w) implies outer[s].contains(w) by {
        assert(slot_propagated(before[s], after[s], blamed));
        assert(config.slot_wf(s));
        assert(after[s].wf(config, s));
        if after[s].fixed is None {
            let options = config.options(s);
            assert(options[options.index_of(w)] == w);
            assert(after[s].eliminations[w as int] is None);
        }
    }
}

/// A change that can be propagated is never found impossible to propagate.
pub proof fn lemma_propagation_decided(
    config: GridConfig,
    fixed: Seq<bool>,
    before: GridState,
    after: GridState,
    blamed: Option<SlotId>,
)
    requires
        config.wf(),
        state_wf(config, after),
        propagated(before, after, blamed),
        consistent(config, fixed, domains(config, after)),
    ensures
        exists|e: Domains| #[trigger]
            consistent(config, fixed, e) && within(e, domains(config, before)),
{
    lemma_propagated_within(config, before, after, blamed);
}

/// There is only one state that propagating a change can lead to.
pub proof fn lemma_propagation_unique(
    config: GridConfig,
    fixed: Seq<bool>,
    before: GridState,
    left: GridState,
    right: GridState,
    blamed: Option<SlotId>,
)
    requires
        config.wf(),
        state_wf(config, left),
        state_wf(config, right),
        propagated(before, left, blamed),
        propagated(before, right, blamed),
        consistent(config, fixed, domains(config, left)),
        consistent(config, fixed, domains(config, right)),
        retains(config, fixed, domains(config, before), domains(config, left)),
        retains(config, fixed, domains(config, before), domains(config, right)),
    ensures
        left == right,
{
    reveal(retains);
    lemma_propagated_within(config, before, left, blamed);
    lemma_propagated_within(config, before, right, blamed);
    assert(within(domains(config, left), domains(config, right)));
    assert(within(domains(config, right), domains(config, left)));
    assert forall|s: int| 0 <= s < left.len() implies left[s] == right[s] by {
        assert(slot_propagated(before[s], left[s], blamed));
        assert(slot_propagated(before[s], right[s], blamed));
        assert(left[s].wf(config, s));
        assert(right[s].wf(config, s));
        if before[s].fixed is None {
            assert forall|w: int| 0 <= w < left[s].eliminations.len() implies left[s].eliminations[w]
                == right[s].eliminations[w] by {
                let word = w as usize;
                assert(config.slot_wf(s));
                assert(config.word_list.words@[config.slot_length(s)].len()
                    == left[s].eliminations.len());
                assert(domains(config, left)[s].contains(word) == domains(
                    config,
                    right,
                )[s].contains(word));
                assert(left[s].eliminations[w] is Some ==> config.options(s).contains(word));
                assert(right[s].eliminations[w] is Some ==> config.options(s).contains(word));
            }
            assert(left[s].eliminations =~= right[s].eliminations);
        }
    }
    assert(left =~= right);
}

} // verus!
