//! Removing the options that cannot be part of any fill, because no option of a crossing slot
//! agrees with them or because they duplicate the only word that is left for another slot.

use crate::counting::{
    lemma_sum_bound, lemma_sum_update, lemma_sum_zero, lemma_tally_bound, lemma_tally_only,
    lemma_tally_positive, lemma_tally_push, lemma_tally_same, lemma_tally_single, lemma_tally_update,
    lemma_tally_witness, sum, tally,
};
use crate::dupe_index::{listed, lists_dupes, AnyDupeIndex};
use crate::fill_model::{
    apart, consistent, lemma_clashing, lemma_retains_remove, lemma_settled_shrink,
    lemma_supported_shrink, lemma_unsupported, lemma_wiped_out, nonempty, only, retains, settled,
    supported, within, Domains,
};
use crate::grid_config::{GridConfig, SlotId};
use crate::search_model::lemma_crosses_back;
use crate::slot::{not_eliminated, Slot};
use crate::types::{GlyphId, WordId};
use crate::util::{
    all_words, cell_counts_match, clone_counts, counted, counts_get, counts_match, counts_of,
    discount_word, lemma_counted_withdraw, GlyphCountsByCell,
};
use std::collections::{HashMap, HashSet};
use vstd::prelude::*;

verus! {

broadcast use vstd::std_specs::hash::group_hash_axioms;

/// The options that were removed to make the grid consistent.
pub struct ArcConsistencySuccess {
    /// For each slot, the words that were removed.
    pub eliminations: Vec<Vec<WordId>>,
}

/// The slot that was left without options, and what removed them.
pub struct ArcConsistencyFailure {
    /// The slot that was left without options.
    pub slot_id: SlotId,
    /// How many of its options the crossing in each cell removed.
    pub eliminated_by_cell: Vec<usize>,
    /// How many of its options were removed because they duplicate another entry.
    pub eliminated_as_dupes: usize,
}

/// The state of every slot matches the grid.
pub open spec fn slots_wf(config: GridConfig, slots: Seq<Slot>) -> bool {
    &&& slots.len() == config.slot_count()
    &&& forall|s: int| 0 <= s < slots.len() ==> (#[trigger] slots[s]).wf(config, s)
}

/// The words that each slot may be filled with.
pub open spec fn slot_domains(config: GridConfig, slots: Seq<Slot>) -> Domains {
    Seq::new(slots.len(), |s: int| slots[s]@.domain(config.options(s)))
}

/// The words that are considered for a slot: its chosen word, or else its options.
pub open spec fn pool(config: GridConfig, slot: Slot, s: int) -> Seq<WordId> {
    match slot.fixed_word_id {
        Some(word) => seq![word],
        None => config.options(s),
    }
}

/// The words that a slot had when propagation started.
pub open spec fn initially(slot: Slot) -> spec_fn(WordId) -> bool {
    match slot.fixed_word_id {
        Some(word) => all_words(),
        None => not_eliminated(slot.eliminations@),
    }
}

/// The words of a slot that have not been removed.
pub open spec fn alive(slot: Slot, removed: Set<WordId>) -> spec_fn(WordId) -> bool {
    |word: WordId| initially(slot)(word) && !removed.contains(word)
}

/// Why a word was removed from a slot.
pub enum Cause {
    /// In the cell where the slot crosses another one, none of these words of the other one agrees.
    Crossing { cell: int, other: int, other_cell: int, left: Set<WordId> },
    /// It duplicates this word of another slot.
    Dupe { other: int, word: WordId },
}

/// The word of a slot was removed for a reason, given the words that all slots had before.
pub open spec fn is_cause(
    config: GridConfig,
    before: Domains,
    s: int,
    word: WordId,
    cause: Cause,
) -> bool {
    match cause {
        Cause::Crossing { cell, other, other_cell, left } => {
            &&& config.crosses(s, cell, other, other_cell)
            &&& nonempty(left)
            &&& forall|u: WordId| #[trigger]
                left.contains(u) ==> before[other].contains(u) && config.glyph(other, u, other_cell)
                    != config.glyph(s, word, cell)
        },
        Cause::Dupe { other, word: u } => {
            &&& 0 <= other < config.slot_count()
            &&& other != s
            &&& before[other].contains(u)
            &&& config.clash(other, u, s, word)
        },
    }
}

/// The crossing in a cell is the reason.
pub open spec fn at_cell(c: int) -> spec_fn(Cause) -> bool {
    |cause: Cause| cause matches Cause::Crossing { cell, .. } && cell == c
}

/// A duplicate is the reason.
pub open spec fn as_dupe() -> spec_fn(Cause) -> bool {
    |cause: Cause| cause is Dupe
}

/// There is a reason for every word that a slot had, and the reasons are counted.
#[verifier::opaque]
pub open spec fn is_explained(
    config: GridConfig,
    before: Domains,
    failure: ArcConsistencyFailure,
) -> bool {
    let s = failure.slot_id as int;
    exists|words: Seq<WordId>, causes: Seq<Cause>|
        #![trigger words.no_duplicates(), are_counted(failure, causes)]
        {
            &&& words.no_duplicates()
            &&& forall|w: WordId| #[trigger] words.contains(w) <==> before[s].contains(w)
            &&& causes.len() == words.len()
            &&& forall|k: int|
                0 <= k < words.len() ==> is_cause(
                    config,
                    before,
                    s,
                    words[k],
                    #[trigger] causes[k],
                )
            &&& are_counted(failure, causes)
        }
}

/// The reasons are counted by cell, and those that are duplicates.
pub open spec fn are_counted(failure: ArcConsistencyFailure, causes: Seq<Cause>) -> bool {
    &&& forall|c: int|
        0 <= c < failure.eliminated_by_cell@.len() ==> #[trigger] failure.eliminated_by_cell@[c]
            == tally(causes, at_cell(c))
    &&& failure.eliminated_as_dupes == tally(causes, as_dupe())
}

/// A cell without a crossing is never the reason.
proof fn lemma_uncrossed(
    config: GridConfig,
    before: Domains,
    s: int,
    words: Seq<WordId>,
    causes: Seq<Cause>,
    c: int,
)
    requires
        causes.len() == words.len(),
        forall|k: int|
            0 <= k < words.len() ==> is_cause(config, before, s, words[k], #[trigger] causes[k]),
        0 <= c < config.slot_length(s),
        config.slot_configs@[s].crossings@[c] is None,
    ensures
        tally(causes, at_cell(c)) == 0,
{
    if tally(causes, at_cell(c)) > 0 {
        let k = lemma_tally_witness(causes, at_cell(c));
        assert(is_cause(config, before, s, words[k], causes[k]));
    }
}

/// What is known about the slots while options are being removed.
struct Propagation {
    /// For each slot, the glyphs of its remaining options.
    counts: Vec<GlyphCountsByCell>,
    /// For each slot, the number of its remaining options.
    remaining: Vec<usize>,
    /// For each slot, the options that were removed, as a set and in order.
    removed: Vec<HashSet<WordId>>,
    eliminations: Vec<Vec<WordId>>,
    /// For each slot and cell, how many options the crossing removed.
    by_cell: Vec<Vec<usize>>,
    /// For each slot, how many options were removed as dupes.
    as_dupes: Vec<usize>,
    /// The slots whose effect on the others has yet to be looked at.
    queued: Vec<bool>,
    /// For each slot, why its options were removed, in order.
    causes: Ghost<Seq<Seq<Cause>>>,
}

impl Propagation {
    /// The words that are left for a slot.
    spec fn domain(&self, config: GridConfig, slots: Seq<Slot>, s: int) -> Set<WordId> {
        Set::new(
            |word: WordId|
                pool(config, slots[s], s).contains(word) && alive(slots[s], self.removed@[s]@)(
                    word,
                ),
        )
    }

    /// The words that are left for each slot.
    spec fn domains(&self, config: GridConfig, slots: Seq<Slot>) -> Domains {
        Seq::new(slots.len(), |s: int| self.domain(config, slots, s))
    }

    /// The tables of a slot match the words that are left for it.
    spec fn slot_wf(&self, config: GridConfig, slots: Seq<Slot>, s: int) -> bool {
        let left = alive(slots[s], self.removed@[s]@);
        &&& counts_match(
            self.counts@[s]@,
            *config.word_list,
            config.slot_length(s),
            pool(config, slots[s], s),
            left,
        )
        &&& self.remaining@[s] == tally(pool(config, slots[s], s), left)
        &&& self.eliminations@[s]@.no_duplicates()
        &&& forall|w: WordId|
            #![trigger self.removed@[s]@.contains(w)]
            #![trigger self.eliminations@[s]@.contains(w)]
            self.removed@[s]@.contains(w) == self.eliminations@[s]@.contains(w)
        &&& forall|w: WordId| #[trigger]
            self.removed@[s]@.contains(w) ==> slots[s]@.domain(config.options(s)).contains(w)
        &&& self.by_cell@[s]@.len() == config.slot_length(s)
        &&& sum(self.by_cell@[s]@) + self.as_dupes@[s] == self.eliminations@[s]@.len()
        &&& self.causes@[s].len() == self.eliminations@[s]@.len()
        &&& forall|k: int|
            0 <= k < self.causes@[s].len() ==> is_cause(
                config,
                slot_domains(config, slots),
                s,
                self.eliminations@[s]@[k],
                #[trigger] self.causes@[s][k],
            )
        &&& forall|c: int|
            0 <= c < config.slot_length(s) ==> #[trigger] self.by_cell@[s]@[c] == tally(
                self.causes@[s],
                at_cell(c),
            )
        &&& self.as_dupes@[s] == tally(self.causes@[s], as_dupe())
        &&& self.remaining@[s] + self.eliminations@[s]@.len() == slots[s]@.size(config.options(s))
    }

    /// The tables of all slots match the words that are left.
    spec fn wf(&self, config: GridConfig, slots: Seq<Slot>) -> bool {
        &&& self.counts@.len() == slots.len()
        &&& self.remaining@.len() == slots.len()
        &&& self.removed@.len() == slots.len()
        &&& self.eliminations@.len() == slots.len()
        &&& self.by_cell@.len() == slots.len()
        &&& self.as_dupes@.len() == slots.len()
        &&& self.queued@.len() == slots.len()
        &&& self.causes@.len() == slots.len()
        &&& forall|s: int| 0 <= s < slots.len() ==> #[trigger] self.slot_wf(config, slots, s)
    }

    /// What is left for a slot was there before.
    proof fn lemma_domain(&self, config: GridConfig, slots: Seq<Slot>, s: int)
        requires
            slots_wf(config, slots),
            0 <= s < slots.len(),
        ensures
            forall|w: WordId| #[trigger]
                self.domains(config, slots)[s].contains(w) ==> slot_domains(
                    config,
                    slots,
                )[s].contains(w),
    {
        assert(slots[s].wf(config, s));
        assert forall|w: WordId| #[trigger] self.domains(config, slots)[s].contains(w) implies slot_domains(
            config,
            slots,
        )[s].contains(w) by {
            if let Some(word) = slots[s].fixed_word_id {
                assert(seq![word][0] == word);
            }
        }
    }

    /// The number of slots that are queued.
    spec fn queue_length(&self) -> nat {
        tally(self.queued@, |queued: bool| queued)
    }

    /// Start from the given slots with some of them queued.
    fn start(config: &GridConfig, slots: &Vec<Slot>, evaluating_slot: Option<SlotId>) -> (result:
        Self)
        requires
            config.wf(),
            slots_wf(*config, slots@),
        ensures
            result.wf(*config, slots@),
            result.domains(*config, slots@) == slot_domains(*config, slots@),
            forall|s: int|
                0 <= s < slots@.len() ==> #[trigger] result.queued@[s] == (match evaluating_slot {
                    Some(evaluating) => evaluating == s,
                    None => true,
                }),
            forall|s: int|
                0 <= s < slots@.len() ==> (#[trigger] result.eliminations@[s])@.len() == 0,
    {
        let mut result = Propagation {
            counts: Vec::new(),
            remaining: Vec::new(),
            removed: Vec::new(),
            eliminations: Vec::new(),
            by_cell: Vec::new(),
            as_dupes: Vec::new(),
            queued: Vec::new(),
            causes: Ghost(Seq::empty()),
        };
        let mut s: usize = 0;
        while s < slots.len()
            invariant
                config.wf(),
                slots_wf(*config, slots@),
                0 <= s <= slots@.len(),
                result.counts@.len() == s,
                result.remaining@.len() == s,
                result.removed@.len() == s,
                result.eliminations@.len() == s,
                result.by_cell@.len() == s,
                result.as_dupes@.len() == s,
                result.queued@.len() == s,
                result.causes@.len() == s,
                forall|k: int|
                    0 <= k < s ==> #[trigger] result.queued@[k] == (match evaluating_slot {
                        Some(evaluating) => evaluating == k,
                        None => true,
                    }),
                forall|k: int| 0 <= k < s ==> #[trigger] result.slot_wf(*config, slots@, k),
                forall|k: int| 0 <= k < s ==> (#[trigger] result.removed@[k])@ =~= Set::empty(),
                forall|k: int|
                    0 <= k < s ==> (#[trigger] result.eliminations@[k])@ =~= Seq::empty(),
            decreases slots@.len() - s,
        {
            let slot = &slots[s];
            let ghost before = result;
            proof {
                assert(slots@[s as int].wf(*config, s as int));
                assert(config.slot_wf(s as int));
            }
            match &slot.fixed_glyph_counts_by_cell {
                Some(counts) => {
                    result.counts.push(clone_counts(counts));
                    result.remaining.push(1);
                },
                None => {
                    result.counts.push(clone_counts(&slot.glyph_counts_by_cell));
                    result.remaining.push(slot.remaining_option_count);
                },
            }
            result.removed.push(HashSet::new());
            result.eliminations.push(Vec::new());
            result.by_cell.push(zeros(slot.length));
            result.as_dupes.push(0);
            let is_queued: bool = match evaluating_slot {
                Some(evaluating) => evaluating == s,
                None => true,
            };
            result.queued.push(is_queued);
            result.causes = Ghost(result.causes@.push(Seq::empty()));
            proof {
                let i = s as int;
                let left = alive(slots@[i], result.removed@[i]@);
                let words = pool(*config, slots@[i], i);
                assert(result.removed@[i]@ =~= Set::empty());
                assert(result.eliminations@[i]@ =~= Seq::empty());
                lemma_sum_zero(result.by_cell@[i]@);
                assert(tally(words, left) == tally(words, initially(slots@[i]))) by {
                    lemma_tally_same(words, left, initially(slots@[i]));
                }
                if slots@[i].fixed_word_id is Some {
                    assert(words.drop_last() =~= Seq::empty());
                    assert(tally(words.drop_last(), left) == 0);
                    assert(tally(words, left) == 1);
                }
                assert forall|c: int| 0 <= c < config.slot_length(i) implies cell_counts_match(
                    counts_of(#[trigger] result.counts@[i]@[c]),
                    *config.word_list,
                    config.slot_length(i),
                    words,
                    left,
                    c,
                ) by {
                    let here = counts_of(result.counts@[i]@[c]);
                    assert(cell_counts_match(
                        here,
                        *config.word_list,
                        config.slot_length(i),
                        words,
                        initially(slots@[i]),
                        c,
                    ));
                    assert forall|g: int| 0 <= g < here.len() implies #[trigger] here[g] == tally(
                        words,
                        counted(*config.word_list, config.slot_length(i), left, c, g),
                    ) by {
                        lemma_tally_same(
                            words,
                            counted(*config.word_list, config.slot_length(i), left, c, g),
                            counted(
                                *config.word_list,
                                config.slot_length(i),
                                initially(slots@[i]),
                                c,
                                g,
                            ),
                        );
                    }
                }
                assert(result.slot_wf(*config, slots@, i));
                assert forall|k: int| 0 <= k < s implies #[trigger] result.slot_wf(
                    *config,
                    slots@,
                    k,
                ) by {
                    assert(before.slot_wf(*config, slots@, k));
                }
            }
            s = s + 1;
        }
        proof {
            assert forall|k: int| 0 <= k < slots@.len() implies result.domains(*config, slots@)[k]
                =~= slot_domains(*config, slots@)[k] by {
                assert(slots@[k].wf(*config, k));
                assert(result.removed@[k]@ =~= Set::empty());
                if let Some(word) = slots@[k].fixed_word_id {
                    assert(seq![word][0] == word);
                }
            }
            assert(result.domains(*config, slots@) =~= slot_domains(*config, slots@));
        }
        result
    }
}

/// Only the slot `j` has lost words, and it is queued if it has.
spec fn narrowed(
    before: Propagation,
    after: Propagation,
    config: GridConfig,
    slots: Seq<Slot>,
    j: int,
) -> bool {
    let was = before.domains(config, slots);
    let is = after.domains(config, slots);
    &&& forall|s: int| 0 <= s < slots.len() && s != j ==> is[s] == was[s]
    &&& forall|w: WordId| #[trigger] is[j].contains(w) ==> was[j].contains(w)
    &&& forall|s: int|
        0 <= s < slots.len() && s != j ==> after.eliminations@[s] == before.eliminations@[s]
    &&& {
        ||| is[j] == was[j] && after.queued@ == before.queued@ && after.remaining@
            == before.remaining@
        ||| after.queued@ == before.queued@.update(j, true) && sum(after.remaining@) < sum(
            before.remaining@,
        )
    }
}

impl Propagation {
    /// Every consistent domains within `outer` are within what is left, and something is left for
    /// every slot.
    spec fn sound(
        &self,
        config: GridConfig,
        slots: Seq<Slot>,
        fixed: Seq<bool>,
        outer: Domains,
    ) -> bool {
        &&& self.wf(config, slots)
        &&& within(self.domains(config, slots), outer)
        &&& retains(config, fixed, outer, self.domains(config, slots))
        &&& forall|s: int| 0 <= s < slots.len() ==> #[trigger] self.remaining@[s] >= 1
    }

    /// Remove a word from a slot, and queue the slot.
    fn eliminate(
        &mut self,
        config: &GridConfig,
        slots: &Vec<Slot>,
        j: usize,
        word: WordId,
        by_cell: Option<usize>,
        Ghost(cause): Ghost<Cause>,
    )
        requires
            config.wf(),
            slots_wf(*config, slots@),
            old(self).wf(*config, slots@),
            j < slots@.len(),
            slots@[j as int].fixed_word_id is None,
            old(self).domain(*config, slots@, j as int).contains(word),
            by_cell matches Some(cell) ==> cell < config.slot_length(j as int),
            is_cause(*config, slot_domains(*config, slots@), j as int, word, cause),
            match by_cell {
                Some(c) => cause matches Cause::Crossing { cell, .. } && cell == c,
                None => cause is Dupe,
            },
        ensures
            final(self).wf(*config, slots@),
            narrowed(*old(self), *final(self), *config, slots@, j as int),
            final(self).remaining@ == old(self).remaining@.update(
                j as int,
                (old(self).remaining@[j as int] - 1) as usize,
            ),
            old(self).remaining@[j as int] >= 1,
            forall|w: WordId| #[trigger]
                final(self).domain(*config, slots@, j as int).contains(w) == (old(self).domain(
                    *config,
                    slots@,
                    j as int,
                ).contains(w) && w != word),
    {
        let ghost s = j as int;
        let ghost words = pool(*config, slots@[s], s);
        let ghost before = alive(slots@[s], self.removed@[s]@);
        let ghost at = words.index_of(word);
        proof {
            assert(self.slot_wf(*config, slots@, s));
            assert(slots@[s].wf(*config, s));
            assert(config.slot_wf(s));
            assert(words[at] == word);
            lemma_tally_positive(words, before, at);
            lemma_tally_bound(words, before);
            lemma_tally_bound(words, not_eliminated(slots@[s].eliminations@));
        }
        let length: usize = slots[j].length;
        self.removed[j].insert(word);
        let ghost after = alive(slots@[s], self.removed@[s]@);
        proof {
            lemma_counted_withdraw(
                *config.word_list,
                length as int,
                words,
                before,
                after,
                word,
            );
            assert(seq![word][0] == word);
        }
        let count: usize = self.remaining[j];
        self.remaining.set(j, count - 1);
        discount_word(
            &mut self.counts[j],
            config.word_list,
            length,
            word,
            Ghost(words),
            Ghost(before),
            Ghost(after),
        );
        self.eliminations[j].push(word);
        match by_cell {
            Some(cell) => {
                proof {
                    lemma_sum_bound(self.by_cell@[s]@, cell as int);
                }
                let tallied: usize = self.by_cell[j][cell];
                proof {
                    lemma_sum_update(self.by_cell@[s]@, cell as int, (tallied + 1) as usize);
                }
                self.by_cell[j].set(cell, tallied + 1);
            },
            None => {
                let tallied: usize = self.as_dupes[j];
                self.as_dupes.set(j, tallied + 1);
            },
        }
        self.queued.set(j, true);
        self.causes = Ghost(self.causes@.update(s, self.causes@[s].push(cause)));
        proof {
            let earlier = old(self).causes@[s];
            assert(self.causes@[s] == earlier.push(cause));
            lemma_tally_push(earlier, cause, as_dupe());
            assert forall|c: int| 0 <= c < config.slot_length(s) implies #[trigger] self.by_cell@[s]@[c]
                == tally(self.causes@[s], at_cell(c)) by {
                lemma_tally_push(earlier, cause, at_cell(c));
                assert(old(self).by_cell@[s]@[c] == tally(earlier, at_cell(c)));
            }
            assert forall|k: int| 0 <= k < self.causes@[s].len() implies is_cause(
                *config,
                slot_domains(*config, slots@),
                s,
                self.eliminations@[s]@[k],
                #[trigger] self.causes@[s][k],
            ) by {
                if k < earlier.len() {
                    assert(self.causes@[s][k] == earlier[k]);
                    assert(self.eliminations@[s]@[k] == old(self).eliminations@[s]@[k]);
                }
            }
            let was = old(self).eliminations@[s]@;
            let now = self.eliminations@[s]@;
            assert(now =~= was.push(word));
            assert(!old(self).removed@[s]@.contains(word));
            assert forall|w: WordId| now.contains(w) == (was.contains(w) || w == word) by {
                if was.contains(w) {
                    assert(now[was.index_of(w)] == w);
                }
                assert(now[was.len() as int] == word);
            }
            assert forall|w: WordId| #[trigger] self.removed@[s]@.contains(w) implies slots@[s]@.domain(
                config.options(s),
            ).contains(w) by {
                if w != word {
                    assert(old(self).removed@[s]@.contains(w));
                }
            }
            assert(self.slot_wf(*config, slots@, s));
            assert forall|k: int| 0 <= k < slots@.len() implies #[trigger] self.slot_wf(
                *config,
                slots@,
                k,
            ) by {
                if k != s {
                    assert(old(self).slot_wf(*config, slots@, k));
                }
            }
            let gone = self.domain(*config, slots@, s);
            assert forall|w: WordId| #[trigger] gone.contains(w) == (old(self).domain(
                *config,
                slots@,
                s,
            ).contains(w) && w != word) by {}
            assert forall|k: int| 0 <= k < slots@.len() && k != s implies self.domains(
                *config,
                slots@,
            )[k] == old(self).domains(*config, slots@)[k] by {
                assert(self.domain(*config, slots@, k) =~= old(self).domain(*config, slots@, k));
            }
            lemma_sum_update(old(self).remaining@, s, (count - 1) as usize);
        }
    }
}

/// Narrowing twice is narrowing.
proof fn lemma_narrowed_again(
    first: Propagation,
    second: Propagation,
    third: Propagation,
    config: GridConfig,
    slots: Seq<Slot>,
    j: int,
)
    requires
        0 <= j < slots.len(),
        first.queued@.len() == slots.len(),
        narrowed(first, second, config, slots, j),
        narrowed(second, third, config, slots, j),
    ensures
        narrowed(first, third, config, slots, j),
{
    assert(first.queued@.update(j, true).update(j, true) =~= first.queued@.update(j, true));
    let was = first.domains(config, slots);
    let between = second.domains(config, slots);
    let is = third.domains(config, slots);
    assert forall|w: WordId| #[trigger] is[j].contains(w) implies was[j].contains(w) by {
        assert(between[j].contains(w));
    }
}

/// Removing a word that is in no consistent domains keeps the state sound, unless it was the last.
proof fn lemma_eliminated(
    before: Propagation,
    after: Propagation,
    config: GridConfig,
    slots: Seq<Slot>,
    fixed: Seq<bool>,
    outer: Domains,
    j: int,
    word: WordId,
)
    requires
        config.wf(),
        slots_wf(config, slots),
        before.sound(config, slots, fixed, outer),
        after.wf(config, slots),
        0 <= j < slots.len(),
        slots[j].fixed_word_id is None,
        before.domain(config, slots, j).contains(word),
        narrowed(before, after, config, slots, j),
        after.remaining@ == before.remaining@.update(j, (before.remaining@[j] - 1) as usize),
        forall|w: WordId| #[trigger]
            after.domain(config, slots, j).contains(w) == (before.domain(config, slots, j).contains(
                w,
            ) && w != word),
        forall|e: Domains| #[trigger]
            consistent(config, fixed, e) && within(e, before.domains(config, slots)) ==> !e[j].contains(
                word,
            ),
    ensures
        after.remaining@[j] >= 1 ==> after.sound(config, slots, fixed, outer),
        after.remaining@[j] == 0 ==> forall|e: Domains| #[trigger]
            consistent(config, fixed, e) ==> !within(e, outer),
{
    let was = before.domains(config, slots);
    let is = after.domains(config, slots);
    assert(before.slot_wf(config, slots, j));
    if after.remaining@[j] >= 1 {
        assert forall|w: WordId| #[trigger] is[j].contains(w) == (was[j].contains(w) && w
            != word) by {
            assert(after.domain(config, slots, j).contains(w) == is[j].contains(w));
        }
        lemma_retains_remove(config, fixed, outer, was, is, j, word);
        assert forall|s: int, w: WordId|
            0 <= s < is.len() && #[trigger] is[s].contains(w) implies outer[s].contains(w) by {
            assert(was[s].contains(w));
        }
        assert forall|s: int| 0 <= s < slots.len() implies #[trigger] after.remaining@[s] >= 1 by {
            if s != j {
                assert(after.remaining@[s] == before.remaining@[s]);
            }
        }
    } else {
        let words = pool(config, slots[j], j);
        let left = alive(slots[j], before.removed@[j]@);
        assert forall|w: WordId| #[trigger] was[j].contains(w) implies w == word by {
            let x = words.index_of(w);
            let y = words.index_of(word);
            assert(words[x] == w && words[y] == word);
            lemma_tally_single(words, left, x, y);
        }
        lemma_wiped_out(config, fixed, outer, was, j, word);
    }
}

impl Propagation {
    /// Remove the words of the slot `j` that no word of the slot `i` agrees with in the square
    /// where they cross. Returns whether any word is left.
    fn prune_crossing(
        &mut self,
        config: &GridConfig,
        slots: &Vec<Slot>,
        Ghost(fixed): Ghost<Seq<bool>>,
        Ghost(outer): Ghost<Domains>,
        i: usize,
        c: usize,
        j: usize,
        d: usize,
    ) -> (left: bool)
        requires
            config.wf(),
            slots_wf(*config, slots@),
            old(self).sound(*config, slots@, fixed, outer),
            config.crosses(i as int, c as int, j as int, d as int),
            slots@[j as int].fixed_word_id is None,
            !fixed[j as int],
        ensures
            final(self).wf(*config, slots@),
            narrowed(*old(self), *final(self), *config, slots@, j as int),
            left ==> final(self).sound(*config, slots@, fixed, outer),
            left ==> supported(
                *config,
                final(self).domains(*config, slots@),
                i as int,
                c as int,
                j as int,
                d as int,
            ),
            !left ==> final(self).remaining@[j as int] == 0,
            !left ==> forall|e: Domains| #[trigger]
                consistent(*config, fixed, e) ==> !within(e, outer),
    {
        proof {
            assert(config.slot_configs@[i as int].crossings@[c as int] is Some);
            assert(0 <= j < config.slot_count());
            assert(i != j);
            assert(config.slot_wf(j as int));
            assert(config.slot_wf(i as int));
            assert(slots@[j as int].wf(*config, j as int));
        }
        let options = &config.slot_options[j];
        let length: usize = slots[j].length;
        let ghost given = self.domains(*config, slots@)[i as int];
        let mut k: usize = 0;
        while k < options.len()
            invariant
                config.wf(),
                slots_wf(*config, slots@),
                self.sound(*config, slots@, fixed, outer),
                config.crosses(i as int, c as int, j as int, d as int),
                config.slot_wf(i as int),
                config.slot_wf(j as int),
                slots@[j as int].wf(*config, j as int),
                slots@[j as int].fixed_word_id is None,
                !fixed[j as int],
                i < slots@.len(),
                j < slots@.len(),
                i != j,
                c < config.slot_length(i as int),
                d < config.slot_length(j as int),
                length == config.slot_length(j as int),
                0 <= k <= options@.len(),
                options@ == config.options(j as int),
                given == self.domains(*config, slots@)[i as int],
                narrowed(*old(self), *self, *config, slots@, j as int),
                old(self).queued@.len() == slots@.len(),
                forall|m: int|
                    0 <= m < k && self.domain(*config, slots@, j as int).contains(
                        #[trigger] options@[m],
                    ) ==> exists|u: WordId| #[trigger]
                        given.contains(u) && config.glyph(i as int, u, c as int) == config.glyph(
                            j as int,
                            options@[m],
                            d as int,
                        ),
            decreases options@.len() - k,
        {
            let word: WordId = options[k];
            assert(self.slot_wf(*config, slots@, j as int));
            assert(self.slot_wf(*config, slots@, i as int));
            let open: bool = slots[j].eliminations[word].is_none() && !self.removed[j].contains(
                &word,
            );
            if open {
                let glyph: GlyphId = config.word_list.words[length][word].glyphs[d];
                let ghost words = pool(*config, slots@[i as int], i as int);
                let ghost left = alive(slots@[i as int], self.removed@[i as int]@);
                let ghost matching = counted(
                    *config.word_list,
                    config.slot_length(i as int),
                    left,
                    c as int,
                    glyph as int,
                );
                proof {
                    assert(options@.contains(word));
                    assert(cell_counts_match(
                        counts_of(self.counts@[i as int]@[c as int]),
                        *config.word_list,
                        config.slot_length(i as int),
                        words,
                        left,
                        c as int,
                    ));
                    assert(counts_of(self.counts@[i as int]@[c as int])[glyph as int] == tally(
                        words,
                        matching,
                    ));
                }
                let agreeing: u32 = counts_get(&self.counts[i][c], glyph);
                if agreeing == 0 {
                    let ghost before = *self;
                    proof {
                        assert forall|u: WordId| #[trigger]
                            self.domains(*config, slots@)[i as int].contains(u) implies config.glyph(
                            i as int,
                            u,
                            c as int,
                        ) != config.glyph(j as int, word, d as int) by {
                            let x = words.index_of(u);
                            assert(words[x] == u);
                            if config.glyph(i as int, u, c as int) == glyph {
                                assert(matching(words[x]));
                                lemma_tally_positive(words, matching, x);
                            }
                        }
                        lemma_unsupported(
                            *config,
                            fixed,
                            self.domains(*config, slots@),
                            i as int,
                            c as int,
                            j as int,
                            d as int,
                            word,
                        );
                    }
                    let ghost cause = Cause::Crossing {
                        cell: d as int,
                        other: i as int,
                        other_cell: c as int,
                        left: given,
                    };
                    proof {
                        lemma_crosses_back(*config, i as int, c as int, j as int, d as int);
                        let x = lemma_tally_witness(words, left);
                        assert(words.contains(words[x]));
                        assert(given.contains(words[x]));
                        self.lemma_domain(*config, slots@, i as int);
                    }
                    self.eliminate(config, slots, j, word, Some(d), Ghost(cause));
                    proof {
                        lemma_narrowed_again(
                            *old(self),
                            before,
                            *self,
                            *config,
                            slots@,
                            j as int,
                        );
                        lemma_eliminated(
                            before,
                            *self,
                            *config,
                            slots@,
                            fixed,
                            outer,
                            j as int,
                            word,
                        );
                    }
                    if self.remaining[j] == 0 {
                        return false;
                    }
                } else {
                    proof {
                        let x = lemma_tally_witness(words, matching);
                        assert(words.contains(words[x]));
                        assert(given.contains(words[x]));
                    }
                }
            }
            k = k + 1;
        }
        proof {
            let now = self.domains(*config, slots@);
            assert forall|v: WordId| #[trigger] now[j as int].contains(v) implies exists|u: WordId|
                #[trigger]
                now[i as int].contains(u) && config.glyph(i as int, u, c as int) == config.glyph(
                    j as int,
                    v,
                    d as int,
                ) by {
                let m = options@.index_of(v);
                assert(options@[m] == v);
                assert(self.domain(*config, slots@, j as int).contains(options@[m]));
            }
        }
        true
    }

    /// Remove the words of the slot `j` that duplicate the only word of the slot `i`. Returns
    /// whether any word is left.
    fn prune_dupes(
        &mut self,
        config: &GridConfig,
        slots: &Vec<Slot>,
        Ghost(fixed): Ghost<Seq<bool>>,
        Ghost(outer): Ghost<Domains>,
        i: usize,
        word: WordId,
        dupes: &HashMap<usize, HashSet<WordId>>,
        j: usize,
    ) -> (left: bool)
        requires
            config.wf(),
            slots_wf(*config, slots@),
            old(self).sound(*config, slots@, fixed, outer),
            i < slots@.len(),
            j < slots@.len(),
            i != j,
            only(old(self).domain(*config, slots@, i as int), word),
            lists_dupes(
                dupes@,
                config.word_list.dupe_index.model(),
                (config.slot_configs@[i as int].length, word),
            ),
            slots@[j as int].fixed_word_id is None,
            !fixed[j as int],
        ensures
            final(self).wf(*config, slots@),
            narrowed(*old(self), *final(self), *config, slots@, j as int),
            left ==> final(self).sound(*config, slots@, fixed, outer),
            left ==> apart(*config, final(self).domains(*config, slots@), i as int, j as int),
            !left ==> final(self).remaining@[j as int] == 0,
            !left ==> forall|e: Domains| #[trigger]
                consistent(*config, fixed, e) ==> !within(e, outer),
    {
        proof {
            assert(config.slot_wf(j as int));
            assert(slots@[j as int].wf(*config, j as int));
        }
        let options = &config.slot_options[j];
        let length: usize = slots[j].length;
        let ghost given = self.domains(*config, slots@)[i as int];
        let ghost model = config.word_list.dupe_index.model();
        match dupes.get(&length) {
            None => {
                proof {
                    let now = self.domains(*config, slots@);
                    assert(now[i as int] == self.domain(*config, slots@, i as int));
                    assert forall|u: WordId, v: WordId|
                        #![trigger now[i as int].contains(u), now[j as int].contains(v)]
                        only(now[i as int], u) && now[j as int].contains(v) implies !config.clash(
                        i as int,
                        u,
                        j as int,
                        v,
                    ) by {
                        assert(u == word);
                        assert(!listed(dupes@, (length, v)));
                    }
                }
                true
            },
            Some(banned) => {
                let mut k: usize = 0;
                while k < options.len()
                    invariant
                        config.wf(),
                        slots_wf(*config, slots@),
                        self.sound(*config, slots@, fixed, outer),
                        config.slot_wf(j as int),
                        slots@[j as int].wf(*config, j as int),
                        slots@[j as int].fixed_word_id is None,
                        !fixed[j as int],
                        i < slots@.len(),
                        j < slots@.len(),
                        i != j,
                        length == config.slot_configs@[j as int].length,
                        model == config.word_list.dupe_index.model(),
                        lists_dupes(dupes@, model, (config.slot_configs@[i as int].length, word)),
                        dupes@.contains_key(length),
                        *banned == dupes@[length],
                        only(given, word),
                        0 <= k <= options@.len(),
                        options@ == config.options(j as int),
                        given == self.domains(*config, slots@)[i as int],
                        narrowed(*old(self), *self, *config, slots@, j as int),
                        old(self).queued@.len() == slots@.len(),
                        forall|m: int|
                            0 <= m < k && self.domain(*config, slots@, j as int).contains(
                                #[trigger] options@[m],
                            ) ==> !config.clash(i as int, word, j as int, options@[m]),
                    decreases options@.len() - k,
                {
                    let other: WordId = options[k];
                    assert(self.slot_wf(*config, slots@, j as int));
                    assert(listed(dupes@, (length, other)) == config.clash(
                        i as int,
                        word,
                        j as int,
                        other,
                    ));
                    let unwanted: bool = slots[j].eliminations[other].is_none()
                        && !self.removed[j].contains(&other) && banned.contains(&other);
                    if unwanted {
                        let ghost before = *self;
                        proof {
                            assert(options@.contains(other));
                            lemma_clashing(
                                *config,
                                fixed,
                                self.domains(*config, slots@),
                                i as int,
                                word,
                                j as int,
                                other,
                            );
                        }
                        let ghost cause = Cause::Dupe { other: i as int, word };
                        proof {
                            assert(given.contains(word));
                            self.lemma_domain(*config, slots@, i as int);
                        }
                        self.eliminate(config, slots, j, other, None, Ghost(cause));
                        proof {
                            lemma_narrowed_again(
                                *old(self),
                                before,
                                *self,
                                *config,
                                slots@,
                                j as int,
                            );
                            lemma_eliminated(
                                before,
                                *self,
                                *config,
                                slots@,
                                fixed,
                                outer,
                                j as int,
                                other,
                            );
                        }
                        if self.remaining[j] == 0 {
                            return false;
                        }
                    }
                    k = k + 1;
                }
                proof {
                    let now = self.domains(*config, slots@);
                    assert forall|u: WordId, v: WordId|
                        #![trigger now[i as int].contains(u), now[j as int].contains(v)]
                        only(now[i as int], u) && now[j as int].contains(v) implies !config.clash(
                        i as int,
                        u,
                        j as int,
                        v,
                    ) by {
                        assert(u == word);
                        let m = options@.index_of(v);
                        assert(options@[m] == v);
                        assert(self.domain(*config, slots@, j as int).contains(options@[m]));
                    }
                }
                true
            },
        }
    }

    /// The only word that is left for a slot.
    fn single_option(&self, config: &GridConfig, slots: &Vec<Slot>, i: usize) -> (word: WordId)
        requires
            config.wf(),
            slots_wf(*config, slots@),
            self.wf(*config, slots@),
            i < slots@.len(),
            self.remaining@[i as int] == 1,
        ensures
            only(self.domain(*config, slots@, i as int), word),
    {
        let ghost words = pool(*config, slots@[i as int], i as int);
        let ghost left = alive(slots@[i as int], self.removed@[i as int]@);
        let ghost mut at: int = 0;
        proof {
            assert(self.slot_wf(*config, slots@, i as int));
            assert(slots@[i as int].wf(*config, i as int));
            assert(config.slot_wf(i as int));
            at = lemma_tally_witness(words, left);
            assert(words.contains(words[at]));
            assert forall|other: WordId|
                self.domain(*config, slots@, i as int).contains(other) implies other
                == words[at] by {
                let x = words.index_of(other);
                assert(words[x] == other);
                lemma_tally_single(words, left, x, at);
            }
        }
        if let Some(word) = slots[i].fixed_word_id {
            return word;
        }
        let options = &config.slot_options[i];
        let mut k: usize = 0;
        while k < options.len()
            invariant
                config.slot_wf(i as int),
                slots@[i as int].wf(*config, i as int),
                self.wf(*config, slots@),
                i < slots@.len(),
                slots@[i as int].fixed_word_id is None,
                words == pool(*config, slots@[i as int], i as int),
                left == alive(slots@[i as int], self.removed@[i as int]@),
                0 <= k <= at < words.len(),
                words == options@,
                left(words[at]),
                only(self.domain(*config, slots@, i as int), words[at]),
            decreases options@.len() - k,
        {
            let word: WordId = options[k];
            if slots[i].eliminations[word].is_none() && !self.removed[i].contains(&word) {
                assert(words.contains(words[k as int]));
                assert(self.domain(*config, slots@, i as int).contains(word));
                return word;
            }
            k = k + 1;
        }
        assert(false);
        0
    }
}

/// The domains without the words that were removed.
pub open spec fn reduced(domains: Domains, eliminations: Seq<Vec<WordId>>) -> Domains {
    Seq::new(
        domains.len(),
        |s: int|
            Set::new(|w: WordId| domains[s].contains(w) && !eliminations[s]@.contains(w)),
    )
}

/// Slots whose word is chosen are fixed.
pub open spec fn fixed_wf(slots: Seq<Slot>, fixed: Seq<bool>) -> bool {
    &&& fixed.len() == slots.len()
    &&& forall|s: int|
        0 <= s < slots.len() && (#[trigger] slots[s]).fixed_word_id is Some ==> fixed[s]
}

/// Every slot but the queued ones is settled, apart from what the slot `busy` still has to do.
spec fn settled_elsewhere(
    state: Propagation,
    config: GridConfig,
    slots: Seq<Slot>,
    fixed: Seq<bool>,
    busy: int,
) -> bool {
    forall|i: int|
        0 <= i < slots.len() && i != busy && !state.queued@[i] ==> #[trigger] settled(
            config,
            fixed,
            state.domains(config, slots),
            i,
        )
}

/// Narrowing one slot keeps the others settled.
proof fn lemma_still_settled(
    before: Propagation,
    after: Propagation,
    config: GridConfig,
    slots: Seq<Slot>,
    fixed: Seq<bool>,
    busy: int,
    j: int,
)
    requires
        config.wf(),
        slots_wf(config, slots),
        before.wf(config, slots),
        after.wf(config, slots),
        0 <= j < slots.len(),
        narrowed(before, after, config, slots, j),
        settled_elsewhere(before, config, slots, fixed, busy),
    ensures
        settled_elsewhere(after, config, slots, fixed, busy),
        within(after.domains(config, slots), before.domains(config, slots)),
{
    let was = before.domains(config, slots);
    let is = after.domains(config, slots);
    assert forall|s: int, w: WordId| 0 <= s < is.len() && #[trigger] is[s].contains(w) implies was[s].contains(
        w,
    ) by {}
    assert forall|i: int| 0 <= i < slots.len() && i != busy && !after.queued@[i] implies #[trigger] settled(
        config,
        fixed,
        is,
        i,
    ) by {
        assert(settled(config, fixed, was, i));
        assert(is[i] == was[i]);
        lemma_settled_shrink(config, fixed, was, is, i);
    }
}

/// The supports and separations that the slot `i` has established survive narrowing another slot.
spec fn established(
    state: Propagation,
    config: GridConfig,
    slots: Seq<Slot>,
    fixed: Seq<bool>,
    i: int,
    cells: int,
    others: int,
) -> bool {
    let domains = state.domains(config, slots);
    &&& forall|c: int, j: int, d: int| #[trigger]
        config.crosses(i, c, j, d) && c < cells && !fixed[j] ==> supported(
            config,
            domains,
            i,
            c,
            j,
            d,
        )
    &&& forall|j: int|
        #![trigger apart(config, domains, i, j)]
        0 <= j < others && j != i && !fixed[j] ==> apart(config, domains, i, j)
}

proof fn lemma_still_established(
    before: Propagation,
    after: Propagation,
    config: GridConfig,
    slots: Seq<Slot>,
    fixed: Seq<bool>,
    i: int,
    cells: int,
    others: int,
    j: int,
)
    requires
        config.wf(),
        slots_wf(config, slots),
        0 <= i < slots.len(),
        0 <= j < slots.len(),
        i != j,
        others <= slots.len(),
        narrowed(before, after, config, slots, j),
        established(before, config, slots, fixed, i, cells, others),
    ensures
        established(after, config, slots, fixed, i, cells, others),
{
    let was = before.domains(config, slots);
    let is = after.domains(config, slots);
    assert(within(is, was));
    assert forall|c: int, k: int, d: int| #[trigger]
        config.crosses(i, c, k, d) && c < cells && !fixed[k] implies supported(
        config,
        is,
        i,
        c,
        k,
        d,
    ) by {
        assert(supported(config, was, i, c, k, d));
        lemma_supported_shrink(config, was, is, i, c, k, d);
    }
    assert forall|k: int|
        #![trigger apart(config, is, i, k)]
        0 <= k < others && k != i && !fixed[k] implies apart(config, is, i, k) by {
        assert(apart(config, was, i, k));
        assert forall|u: WordId, v: WordId|
            #![trigger is[i].contains(u), is[k].contains(v)]
            only(is[i], u) && is[k].contains(v) implies !config.clash(i, u, k, v) by {
            assert(was[i].contains(u));
            assert(was[k].contains(v));
        }
    }
}

impl Propagation {
    /// The first queued slot.
    fn next_queued(&self) -> (result: Option<usize>)
        ensures
            match result {
                Some(i) => i < self.queued@.len() && self.queued@[i as int],
                None => forall|i: int| 0 <= i < self.queued@.len() ==> !self.queued@[i],
            },
    {
        let mut i: usize = 0;
        while i < self.queued.len()
            invariant
                0 <= i <= self.queued@.len(),
                forall|k: int| 0 <= k < i ==> !self.queued@[k],
            decreases self.queued@.len() - i,
        {
            if self.queued[i] {
                return Some(i);
            }
            i = i + 1;
        }
        None
    }

    /// Look at the effect of the slot `i` on the others. If a slot is left without words, it is
    /// returned.
    fn settle(
        &mut self,
        config: &GridConfig,
        slots: &Vec<Slot>,
        fixed: &Vec<bool>,
        Ghost(outer): Ghost<Domains>,
        i: usize,
    ) -> (wiped_out: Option<SlotId>)
        requires
            config.wf(),
            slots_wf(*config, slots@),
            fixed_wf(slots@, fixed@),
            old(self).sound(*config, slots@, fixed@, outer),
            i < slots@.len(),
            old(self).queued@[i as int],
            settled_elsewhere(*old(self), *config, slots@, fixed@, -1),
            forall|s: int|
                0 <= s < slots@.len() && fixed@[s] ==> (#[trigger] old(self).eliminations@[s])@.len() == 0,
        ensures
            final(self).wf(*config, slots@),
            forall|s: int|
                0 <= s < slots@.len() && fixed@[s] ==> (#[trigger] final(self).eliminations@[s])@.len() == 0,
            wiped_out is None ==> final(self).sound(*config, slots@, fixed@, outer),
            wiped_out is None ==> settled_elsewhere(*final(self), *config, slots@, fixed@, -1),
            wiped_out is None ==> sum(final(self).remaining@) < sum(old(self).remaining@) || (sum(
                final(self).remaining@,
            ) == sum(old(self).remaining@) && final(self).queue_length() < old(self).queue_length()),
            wiped_out matches Some(j) ==> j < slots@.len() && final(self).remaining@[j as int]
                == 0,
            wiped_out is Some ==> forall|e: Domains| #[trigger]
                consistent(*config, fixed@, e) ==> !within(e, outer),
    {
        let ghost busy = i as int;
        self.queued.set(i, false);
        let ghost total = sum(self.remaining@);
        let ghost queued = self.queue_length();
        proof {
            lemma_tally_update(old(self).queued@, |queued: bool| queued, busy, false);
            assert forall|s: int| 0 <= s < slots@.len() implies #[trigger] self.slot_wf(
                *config,
                slots@,
                s,
            ) by {
                assert(old(self).slot_wf(*config, slots@, s));
            }
            assert(self.domains(*config, slots@) =~= old(self).domains(*config, slots@));
            assert(settled_elsewhere(*self, *config, slots@, fixed@, busy)) by {
                assert forall|k: int|
                    0 <= k < slots@.len() && k != busy && !self.queued@[k] implies #[trigger] settled(
                    *config,
                    fixed@,
                    self.domains(*config, slots@),
                    k,
                ) by {
                    assert(settled(*config, fixed@, old(self).domains(*config, slots@), k));
                }
            }
            assert(config.slot_wf(busy));
            assert(slots@[busy].wf(*config, busy));
        }
        let crossings = &config.slot_configs[i].crossings;
        let mut c: usize = 0;
        while c < crossings.len()
            invariant
                config.wf(),
                slots_wf(*config, slots@),
                fixed_wf(slots@, fixed@),
                self.sound(*config, slots@, fixed@, outer),
                busy == i,
                i < slots@.len(),
                !self.queued@[busy],
                config.slot_wf(busy),
                crossings@ == config.slot_configs@[busy].crossings@,
                0 <= c <= crossings@.len(),
                settled_elsewhere(*self, *config, slots@, fixed@, busy),
                established(*self, *config, slots@, fixed@, busy, c as int, 0),
                forall|s: int|
                    0 <= s < slots@.len() && fixed@[s] ==> (#[trigger] self.eliminations@[s])@.len()
                        == 0,
                sum(self.remaining@) < total || (sum(self.remaining@) == total
                    && self.queue_length() == queued),
            decreases crossings@.len() - c,
        {
            if let Some(crossing) = crossings[c] {
                let j: usize = crossing.other_slot_id;
                let d: usize = crossing.other_slot_cell;
                proof {
                    assert(config.slot_configs@[busy].crossings@[c as int] is Some);
                    assert(config.crosses(busy, c as int, j as int, d as int));
                    assert(config.crossing_wf(busy, c as int, crossing));
                    assert(0 <= j < config.slot_count());
                }
                if !fixed[j] {
                    let ghost before = *self;
                    proof {
                        assert(slots@[j as int].fixed_word_id is None);
                    }
                    let left: bool = self.prune_crossing(
                        config,
                        slots,
                        Ghost(fixed@),
                        Ghost(outer),
                        i,
                        c,
                        j,
                        d,
                    );
                    if !left {
                        return Some(j);
                    }
                    proof {
                        lemma_still_settled(
                            before,
                            *self,
                            *config,
                            slots@,
                            fixed@,
                            busy,
                            j as int,
                        );
                        lemma_still_established(
                            before,
                            *self,
                            *config,
                            slots@,
                            fixed@,
                            busy,
                            c as int,
                            0,
                            j as int,
                        );
                    }
                }
            }
            c = c + 1;
        }
        if self.remaining[i] == 1 {
            let word: WordId = self.single_option(config, slots, i);
            let length: usize = config.slot_configs[i].length;
            let dupes = config.word_list.dupe_index.get_dupes_by_length((length, word));
            let ghost given = self.domain(*config, slots@, busy);
            let mut j: usize = 0;
            while j < slots.len()
                invariant
                    config.wf(),
                    slots_wf(*config, slots@),
                    fixed_wf(slots@, fixed@),
                    self.sound(*config, slots@, fixed@, outer),
                    busy == i,
                    i < slots@.len(),
                    !self.queued@[busy],
                    config.slot_wf(busy),
                    length == config.slot_configs@[busy].length,
                    given == self.domain(*config, slots@, busy),
                    only(given, word),
                    lists_dupes(dupes@, config.word_list.dupe_index.model(), (length, word)),
                    0 <= j <= slots@.len(),
                    settled_elsewhere(*self, *config, slots@, fixed@, busy),
                    established(
                        *self,
                        *config,
                        slots@,
                        fixed@,
                        busy,
                        config.slot_length(busy),
                        j as int,
                    ),
                    forall|s: int|
                        0 <= s < slots@.len() && fixed@[s] ==> (
                        #[trigger] self.eliminations@[s])@.len() == 0,
                    sum(self.remaining@) < total || (sum(self.remaining@) == total
                        && self.queue_length() == queued),
                decreases slots@.len() - j,
            {
                if j != i && !fixed[j] {
                    let ghost before = *self;
                    proof {
                        assert(slots@[j as int].fixed_word_id is None);
                    }
                    let left: bool = self.prune_dupes(
                        config,
                        slots,
                        Ghost(fixed@),
                        Ghost(outer),
                        i,
                        word,
                        &dupes,
                        j,
                    );
                    if !left {
                        return Some(j);
                    }
                    proof {
                        lemma_still_settled(
                            before,
                            *self,
                            *config,
                            slots@,
                            fixed@,
                            busy,
                            j as int,
                        );
                        lemma_still_established(
                            before,
                            *self,
                            *config,
                            slots@,
                            fixed@,
                            busy,
                            config.slot_length(busy),
                            j as int,
                            j as int,
                        );
                        assert(self.domain(*config, slots@, busy) == self.domains(
                            *config,
                            slots@,
                        )[busy]);
                    }
                }
                j = j + 1;
            }
        } else {
            proof {
                let now = self.domains(*config, slots@);
                assert(self.slot_wf(*config, slots@, busy));
                assert forall|j: int|
                    #![trigger apart(*config, now, busy, j)]
                    0 <= j < slots@.len() && j != busy && !fixed@[j] implies apart(
                    *config,
                    now,
                    busy,
                    j,
                ) by {
                    let words = pool(*config, slots@[busy], busy);
                    let left = alive(slots@[busy], self.removed@[busy]@);
                    assert forall|u: WordId, v: WordId|
                        #![trigger now[busy].contains(u), now[j].contains(v)]
                        only(now[busy], u) && now[j].contains(v) implies !config.clash(
                        busy,
                        u,
                        j,
                        v,
                    ) by {
                        assert forall|other: WordId|
                            words.contains(other) && left(other) implies other == u by {
                            assert(now[busy].contains(other));
                        }
                        lemma_tally_only(words, left, u);
                    }
                }
            }
        }
        proof {
            assert(settled(*config, fixed@, self.domains(*config, slots@), busy));
        }
        None
    }
}

/// Remove every option that cannot be part of a fill because no option of a crossing slot agrees
/// with it, or because it duplicates the only word that is left for another slot, and repeat until
/// nothing more can be removed. Nothing is removed from fixed slots.
///
/// Given a slot to evaluate, only that slot is taken to have changed: the others must have no
/// further effect. Fails exactly when a slot is left without options.
pub fn establish_arc_consistency(
    config: &GridConfig,
    slots: &Vec<Slot>,
    fixed_slots: &Vec<bool>,
    evaluating_slot: Option<SlotId>,
) -> (result: Result<ArcConsistencySuccess, ArcConsistencyFailure>)
    requires
        config.wf(),
        slots_wf(*config, slots@),
        fixed_wf(slots@, fixed_slots@),
        evaluating_slot matches Some(evaluating) ==> forall|i: int|
            0 <= i < slots@.len() && i != evaluating ==> #[trigger] settled(
                *config,
                fixed_slots@,
                slot_domains(*config, slots@),
                i,
            ),
    ensures
        result matches Ok(success) ==> {
            let after = reduced(slot_domains(*config, slots@), success.eliminations@);
            &&& success.eliminations@.len() == slots@.len()
            &&& forall|s: int, w: WordId| #[trigger]
                success.eliminations@[s]@.contains(w) && 0 <= s < slots@.len() ==> slots@[s]@.domain(
                    config.options(s),
                ).contains(w)
            &&& forall|s: int|
                0 <= s < slots@.len() ==> (#[trigger] success.eliminations@[s])@.no_duplicates()
            &&& forall|s: int|
                0 <= s < slots@.len() && fixed_slots@[s] ==> (
                #[trigger] success.eliminations@[s])@.len() == 0
            &&& consistent(*config, fixed_slots@, after)
            &&& retains(*config, fixed_slots@, slot_domains(*config, slots@), after)
        },
        result matches Err(failure) ==> {
            &&& failure.slot_id < slots@.len()
            &&& failure.eliminated_by_cell@.len() == config.slot_length(failure.slot_id as int)
            &&& sum(failure.eliminated_by_cell@) + failure.eliminated_as_dupes
                == slots@[failure.slot_id as int]@.size(config.options(failure.slot_id as int))
            &&& is_explained(*config, slot_domains(*config, slots@), failure)
            &&& forall|c: int|
                0 <= c < failure.eliminated_by_cell@.len()
                    && config.slot_configs@[failure.slot_id as int].crossings@[c] is None
                    ==> #[trigger] failure.eliminated_by_cell@[c] == 0
            &&& forall|e: Domains| #[trigger]
                consistent(*config, fixed_slots@, e) ==> !within(
                    e,
                    slot_domains(*config, slots@),
                )
        },
{
    let ghost outer = slot_domains(*config, slots@);
    let mut state = Propagation::start(config, slots, evaluating_slot);
    proof {
        assert(retains(*config, fixed_slots@, outer, outer)) by {
            reveal(retains);
        }
        assert(within(outer, outer));
    }
    let mut s: usize = 0;
    while s < slots.len()
        invariant
            config.wf(),
            slots_wf(*config, slots@),
            state.wf(*config, slots@),
            outer == slot_domains(*config, slots@),
            state.domains(*config, slots@) == outer,
            0 <= s <= slots@.len(),
            forall|k: int| 0 <= k < s ==> #[trigger] state.remaining@[k] >= 1,
        decreases slots@.len() - s,
    {
        if state.remaining[s] == 0 {
            proof {
                assert(state.slot_wf(*config, slots@, s as int));
                assert forall|e: Domains| #[trigger] consistent(
                    *config,
                    fixed_slots@,
                    e,
                ) implies !within(e, outer) by {
                    if within(e, outer) {
                        assert(nonempty(e[s as int]));
                        let w = choose|w: WordId| e[s as int].contains(w);
                        assert(state.domains(*config, slots@)[s as int].contains(w));
                        let words = pool(*config, slots@[s as int], s as int);
                        let k = words.index_of(w);
                        lemma_tally_positive(
                            words,
                            alive(slots@[s as int], state.removed@[s as int]@),
                            k,
                        );
                    }
                }
            }
            return Err(state.failure(config, slots, s));
        }
        s = s + 1;
    }
    proof {
        assert(settled_elsewhere(state, *config, slots@, fixed_slots@, -1));
    }
    loop
        invariant
            config.wf(),
            slots_wf(*config, slots@),
            fixed_wf(slots@, fixed_slots@),
            outer == slot_domains(*config, slots@),
            state.sound(*config, slots@, fixed_slots@, outer),
            settled_elsewhere(state, *config, slots@, fixed_slots@, -1),
            forall|s: int|
                0 <= s < slots@.len() && fixed_slots@[s] ==> (
                #[trigger] state.eliminations@[s])@.len() == 0,
        decreases sum(state.remaining@), state.queue_length(),
    {
        match state.next_queued() {
            Some(i) => {
                match state.settle(config, slots, fixed_slots, Ghost(outer), i) {
                    Some(j) => {
                        return Err(state.failure(config, slots, j));
                    },
                    None => {},
                }
            },
            None => {
                proof {
                    state.lemma_finished(*config, slots@, fixed_slots@, outer);
                }
                return Ok(ArcConsistencySuccess { eliminations: state.eliminations });
            },
        }
    }
}

impl Propagation {
    /// What is left when no slot is queued is consistent.
    proof fn lemma_finished(
        &self,
        config: GridConfig,
        slots: Seq<Slot>,
        fixed: Seq<bool>,
        outer: Domains,
    )
        requires
            config.wf(),
            slots_wf(config, slots),
            outer == slot_domains(config, slots),
            self.sound(config, slots, fixed, outer),
            settled_elsewhere(*self, config, slots, fixed, -1),
            forall|i: int| 0 <= i < self.queued@.len() ==> !self.queued@[i],
        ensures
            reduced(outer, self.eliminations@) == self.domains(config, slots),
            consistent(config, fixed, self.domains(config, slots)),
            forall|s: int, w: WordId| #[trigger]
                self.eliminations@[s]@.contains(w) && 0 <= s < slots.len() ==> slots[s]@.domain(
                    config.options(s),
                ).contains(w),
            forall|s: int|
                0 <= s < slots.len() ==> (#[trigger] self.eliminations@[s])@.no_duplicates(),
    {
        let now = self.domains(config, slots);
        assert forall|s: int| 0 <= s < slots.len() implies nonempty(#[trigger] now[s]) by {
            assert(self.slot_wf(config, slots, s));
            assert(self.remaining@[s] >= 1);
            let words = pool(config, slots[s], s);
            let k = lemma_tally_witness(words, alive(slots[s], self.removed@[s]@));
            assert(words.contains(words[k]));
            assert(now[s].contains(words[k]));
        }
        assert forall|s: int| 0 <= s < slots.len() implies reduced(outer, self.eliminations@)[s]
            =~= now[s] by {
            assert(self.slot_wf(config, slots, s));
            assert(slots[s].wf(config, s));
            if let Some(word) = slots[s].fixed_word_id {
                assert(seq![word][0] == word);
            }
        }
        assert(reduced(outer, self.eliminations@) =~= now);
        assert forall|i: int| 0 <= i < config.slot_count() implies #[trigger] settled(
            config,
            fixed,
            now,
            i,
        ) by {}
        assert forall|s: int, w: WordId| #[trigger]
            self.eliminations@[s]@.contains(w) && 0 <= s < slots.len() implies slots[s]@.domain(
            config.options(s),
        ).contains(w) by {
            assert(self.slot_wf(config, slots, s));
            assert(self.removed@[s]@.contains(w));
        }
        assert forall|s: int| 0 <= s < slots.len() implies (
        #[trigger] self.eliminations@[s])@.no_duplicates() by {
            assert(self.slot_wf(config, slots, s));
        }
    }

    /// Describe how a slot was left without words.
    fn failure(&self, config: &GridConfig, slots: &Vec<Slot>, j: usize) -> (failure:
        ArcConsistencyFailure)
        requires
            config.wf(),
            slots_wf(*config, slots@),
            self.wf(*config, slots@),
            j < slots@.len(),
            self.remaining@[j as int] == 0,
        ensures
            failure.slot_id == j,
            failure.eliminated_by_cell@.len() == config.slot_length(j as int),
            sum(failure.eliminated_by_cell@) + failure.eliminated_as_dupes
                == slots@[j as int]@.size(config.options(j as int)),
            is_explained(*config, slot_domains(*config, slots@), failure),
            forall|c: int|
                0 <= c < config.slot_length(j as int)
                    && config.slot_configs@[j as int].crossings@[c] is None
                    ==> #[trigger] failure.eliminated_by_cell@[c] == 0,
    {
        assert(self.slot_wf(*config, slots@, j as int));
        let eliminated_by_cell: Vec<usize> = self.by_cell[j].clone();
        assert(eliminated_by_cell@ =~= self.by_cell@[j as int]@);
        let failure = ArcConsistencyFailure {
            slot_id: j,
            eliminated_by_cell,
            eliminated_as_dupes: self.as_dupes[j],
        };
        proof {
            let s = j as int;
            let before = slot_domains(*config, slots@);
            let words = self.eliminations@[s]@;
            let causes = self.causes@[s];
            assert forall|w: WordId| #[trigger] words.contains(w) <==> before[s].contains(w) by {
                assert(self.removed@[s]@.contains(w) == words.contains(w));
                if before[s].contains(w) && !words.contains(w) {
                    let all = pool(*config, slots@[s], s);
                    assert(slots@[s].wf(*config, s));
                    if let Some(word) = slots@[s].fixed_word_id {
                        assert(seq![word][0] == word);
                    }
                    assert(all.contains(w));
                    lemma_tally_positive(all, alive(slots@[s], self.removed@[s]@), all.index_of(w));
                }
            }
            assert(are_counted(failure, causes));
            assert(words.no_duplicates());
            assert(is_explained(*config, before, failure)) by {
                reveal(is_explained);
            }
            assert forall|c: int|
                0 <= c < config.slot_length(s) && config.slot_configs@[s].crossings@[c]
                    is None implies #[trigger] failure.eliminated_by_cell@[c] == 0 by {
                lemma_uncrossed(*config, before, s, words, causes, c);
            }
        }
        failure
    }
}

/// A list of zeros.
fn zeros(count: usize) -> (result: Vec<usize>)
    ensures
        result@.len() == count,
        forall|i: int| 0 <= i < count ==> result@[i] == 0,
{
    let mut result: Vec<usize> = Vec::new();
    let mut i: usize = 0;
    while i < count
        invariant
            0 <= i <= count,
            result@.len() == i,
            forall|k: int| 0 <= k < i ==> result@[k] == 0,
        decreases count - i,
    {
        result.push(0);
        i = i + 1;
    }
    result
}

} // verus!
