//! The live state of a single slot during filling.

use crate::counting::{
    lemma_tally_bound, lemma_tally_push, lemma_tally_single, lemma_tally_witness, tally,
};
use crate::fill_model::only;
use crate::grid_config::{Choice, GridConfig, SlotId};
use crate::types::WordId;
use crate::util::{
    all_words, build_glyph_counts_by_cell, cell_counts_match, clone_counts, count_word, counted,
    counts_match, counts_of, discount_word, glyph_of, lemma_counted_withdraw, GlyphCountsByCell,
};
use vstd::prelude::*;

verus! {

/// What a slot knows about its words.
#[verifier::ext_equal]
pub struct SlotState {
    /// For each word, whether it has been eliminated and which slot's choice is to blame.
    pub eliminations: Seq<Option<Option<SlotId>>>,
    /// The word chosen for the slot.
    pub fixed: Option<WordId>,
}

/// The words that have not been eliminated.
pub open spec fn not_eliminated(eliminations: Seq<Option<Option<SlotId>>>) -> spec_fn(
    WordId,
) -> bool {
    |word: WordId| eliminations[word as int] is None
}

impl SlotState {
    /// The words that the slot may be filled with.
    pub open spec fn domain(self, options: Seq<WordId>) -> Set<WordId> {
        match self.fixed {
            Some(word) => set![word],
            None => Set::new(
                |word: WordId|
                    options.contains(word) && self.eliminations[word as int] is None,
            ),
        }
    }

    /// The number of words that the slot may be filled with.
    pub open spec fn size(self, options: Seq<WordId>) -> nat {
        match self.fixed {
            Some(word) => 1,
            None => tally(options, not_eliminated(self.eliminations)),
        }
    }

    /// The state fits the words of the slot.
    pub open spec fn wf(self, config: GridConfig, slot: int) -> bool {
        &&& self.eliminations.len() == config.word_list.words@[config.slot_length(slot)]@.len()
        &&& forall|w: int|
            0 <= w < self.eliminations.len() && (#[trigger] self.eliminations[w]) is Some
                ==> config.options(slot).contains(w as usize)
        &&& self.fixed matches Some(word) ==> config.options(slot).contains(word)
    }

    /// The state with one more word eliminated.
    pub open spec fn eliminate(self, word: WordId, blamed: Option<SlotId>) -> SlotState {
        SlotState {
            eliminations: self.eliminations.update(word as int, Some(blamed)),
            fixed: self.fixed,
        }
    }

    /// The state with a word available again.
    pub open spec fn restore(self, word: WordId) -> SlotState {
        SlotState { eliminations: self.eliminations.update(word as int, None), fixed: self.fixed }
    }

    /// The state without the eliminations that a slot's choice is to blame for.
    pub open spec fn forgive(self, blamed: SlotId) -> SlotState {
        SlotState {
            eliminations: self.eliminations.map_values(
                |e: Option<Option<SlotId>>|
                    if e == Some(Some(blamed)) {
                        None::<Option<SlotId>>
                    } else {
                        e
                    },
            ),
            fixed: self.fixed,
        }
    }

    /// The state with a word chosen, or none.
    pub open spec fn fix(self, fixed: Option<WordId>) -> SlotState {
        SlotState { eliminations: self.eliminations, fixed }
    }
}

/// A struct tracking the live state of a single slot during filling.
pub struct Slot {
    /// Properties duplicated from `SlotConfig` for convenience.
    pub id: SlotId,
    pub length: usize,
    /// Record of which options from `slot_options` have been eliminated from this slot, stored as
    /// a Vec indexed by WordId:
    /// * `Some(Some(id))` means "this option has been eliminated by the choice in slot `id`"
    /// * `Some(None)` means "this option has been eliminated regardless of any choices"
    /// * `None` means "this option has not been eliminated (or was never available)"
    pub eliminations: Vec<Option<Option<SlotId>>>,
    /// To enable us to quickly validate crossing slots, we maintain a count of the number of
    /// instances of each glyph in each cell in our remaining options.
    pub glyph_counts_by_cell: GlyphCountsByCell,
    /// How many options are still available for this slot? Note that this is based on the
    /// `slot_options` from GridConfig, not the `words` from WordList, since the latter also
    /// includes hidden words that aren't available for this fill attempt.
    pub remaining_option_count: usize,
    /// The word id explicitly chosen for this slot during the fill process (or as part of the input
    /// to the fill process), if there is one. This takes precedence over `eliminations`,
    /// `glyph_counts_by_cell`, and `remaining_option_count`, which will be kept in the state they
    /// were in before the choice was made.
    pub fixed_word_id: Option<WordId>,
    pub fixed_glyph_counts_by_cell: Option<GlyphCountsByCell>,
}

impl View for Slot {
    type V = SlotState;

    open spec fn view(&self) -> SlotState {
        SlotState { eliminations: self.eliminations@, fixed: self.fixed_word_id }
    }
}

impl Slot {
    /// The counts reflect the words that have not been eliminated, and those of the chosen word.
    pub open spec fn wf(&self, config: GridConfig, slot: int) -> bool {
        &&& self.id == slot
        &&& self.length == config.slot_length(slot)
        &&& self@.wf(config, slot)
        &&& self.remaining_option_count == tally(
            config.options(slot),
            not_eliminated(self.eliminations@),
        )
        &&& counts_match(
            self.glyph_counts_by_cell@,
            *config.word_list,
            self.length as int,
            config.options(slot),
            not_eliminated(self.eliminations@),
        )
        &&& match self.fixed_word_id {
            Some(word) => self.fixed_glyph_counts_by_cell matches Some(counts) && counts_match(
                counts@,
                *config.word_list,
                self.length as int,
                seq![word],
                all_words(),
            ),
            None => self.fixed_glyph_counts_by_cell is None,
        }
    }

    /// Record that a word is unavailable for a slot, along with the slot id responsible so that we
    /// can roll it back if we backtrack the relevant decision.
    pub fn add_elimination(
        &mut self,
        config: &GridConfig,
        word_id: WordId,
        blamed_slot_id: Option<SlotId>,
    )
        requires
            config.wf(),
            old(self).id < config.slot_count(),
            old(self).wf(*config, old(self).id as int),
            old(self).fixed_word_id is None,
            config.options(old(self).id as int).contains(word_id),
            old(self).eliminations@[word_id as int] is None,
        ensures
            final(self).wf(*config, old(self).id as int),
            final(self)@ == old(self)@.eliminate(word_id, blamed_slot_id),
    {
        let ghost slot = self.id as int;
        let ghost options = config.options(slot);
        let ghost before = not_eliminated(self.eliminations@);
        let ghost at = options.index_of(word_id);
        proof {
            assert(config.slot_wf(slot));
            assert(options[at] == word_id);
        }
        self.eliminations.set(word_id, Some(blamed_slot_id));
        let ghost after = not_eliminated(self.eliminations@);
        proof {
            lemma_counted_withdraw(
                *config.word_list,
                self.length as int,
                options,
                before,
                after,
                word_id,
            );
        }
        self.remaining_option_count = self.remaining_option_count - 1;
        discount_word(
            &mut self.glyph_counts_by_cell,
            config.word_list,
            self.length,
            word_id,
            Ghost(options),
            Ghost(before),
            Ghost(after),
        );
        assert(self@ =~= old(self)@.eliminate(word_id, blamed_slot_id));
    }

    /// Record that a word is now available again for this slot.
    pub fn remove_elimination(&mut self, config: &GridConfig, word_id: WordId)
        requires
            config.wf(),
            old(self).id < config.slot_count(),
            old(self).wf(*config, old(self).id as int),
            old(self).fixed_word_id is None,
            config.options(old(self).id as int).contains(word_id),
            old(self).eliminations@[word_id as int] is Some,
        ensures
            final(self).wf(*config, old(self).id as int),
            final(self)@ == old(self)@.restore(word_id),
    {
        let ghost slot = self.id as int;
        let ghost options = config.options(slot);
        let ghost before = not_eliminated(self.eliminations@);
        let ghost at = options.index_of(word_id);
        proof {
            assert(config.slot_wf(slot));
            assert(options[at] == word_id);
        }
        self.eliminations.set(word_id, None);
        let ghost after = not_eliminated(self.eliminations@);
        proof {
            lemma_counted_withdraw(
                *config.word_list,
                self.length as int,
                options,
                after,
                before,
                word_id,
            );
            lemma_tally_bound(options, after);
            assert forall|c: int, g: int|
                #![trigger counted(*config.word_list, self.length as int, after, c, g)]
                tally(options, counted(*config.word_list, self.length as int, after, c, g)) == tally(
                    options,
                    counted(*config.word_list, self.length as int, before, c, g),
                ) + (if glyph_of(*config.word_list, self.length as int, word_id, c)
                    == g {
                    1nat
                } else {
                    0nat
                }) by {
                let unused = counted(*config.word_list, self.length as int, before, c, g);
            }
        }
        self.remaining_option_count = self.remaining_option_count + 1;
        count_word(
            &mut self.glyph_counts_by_cell,
            config.word_list,
            self.length,
            word_id,
            Ghost(options),
            Ghost(before),
            Ghost(options),
            Ghost(after),
        );
        assert(self@ =~= old(self)@.restore(word_id));
    }

    /// Remove all eliminations that were created because of the last choice in the given slot.
    pub fn clear_eliminations(&mut self, config: &GridConfig, slot_id: SlotId)
        requires
            config.wf(),
            old(self).id < config.slot_count(),
            old(self).wf(*config, old(self).id as int),
            old(self).fixed_word_id is None,
        ensures
            final(self).wf(*config, old(self).id as int),
            final(self)@ == old(self)@.forgive(slot_id),
    {
        let ghost cleared = self@.forgive(slot_id).eliminations;
        let count: usize = self.eliminations.len();
        let mut word_id: usize = 0;
        while word_id < count
            invariant
                config.wf(),
                self.id == old(self).id,
                self.id < config.slot_count(),
                self.wf(*config, self.id as int),
                self.fixed_word_id is None,
                old(self).fixed_word_id is None,
                0 <= word_id <= count,
                count == old(self).eliminations@.len(),
                cleared == old(self)@.forgive(slot_id).eliminations,
                self.eliminations@.len() == count,
                forall|w: int| 0 <= w < word_id ==> self.eliminations@[w] == cleared[w],
                forall|w: int|
                    word_id <= w < count ==> self.eliminations@[w] == old(self).eliminations@[w],
            decreases count - word_id,
        {
            let blamed: bool = match self.eliminations[word_id] {
                Some(Some(blamed_slot_id)) => blamed_slot_id == slot_id,
                _ => false,
            };
            if blamed {
                assert(self@.eliminations[word_id as int] is Some);
                self.remove_elimination(config, word_id);
            }
            word_id = word_id + 1;
        }
        assert(self@ =~= old(self)@.forgive(slot_id));
    }

    /// Record a choice, shadowing the existing eliminations, glyph counts, etc.
    pub fn choose_word(&mut self, config: &GridConfig, word_id: WordId)
        requires
            config.wf(),
            old(self).id < config.slot_count(),
            old(self).wf(*config, old(self).id as int),
            config.options(old(self).id as int).contains(word_id),
        ensures
            final(self).wf(*config, old(self).id as int),
            final(self)@ == old(self)@.fix(Some(word_id)),
    {
        let mut chosen: Vec<WordId> = Vec::new();
        chosen.push(word_id);
        proof {
            let slot = self.id as int;
            assert(config.slot_wf(slot));
            let at = config.options(slot).index_of(word_id);
            assert(config.options(slot)[at] == word_id);
            assert(chosen@ =~= seq![word_id]);
        }
        self.fixed_word_id = Some(word_id);
        self.fixed_glyph_counts_by_cell = Some(
            build_glyph_counts_by_cell(config.word_list, self.length, chosen.as_slice()),
        );
    }

    /// Clear a choice. Since we only ever backtrack linearly, the previously-stored eliminations,
    /// glyph counts, etc., should still be correct.
    pub fn clear_choice(&mut self)
        ensures
            final(self)@ == old(self)@.fix(None),
            forall|config: GridConfig, slot: int|
                old(self).wf(config, slot) ==> #[trigger] final(self).wf(config, slot),
    {
        self.fixed_word_id = None;
        self.fixed_glyph_counts_by_cell = None;
    }

    /// Build a Choice struct representing this slot's single remaining word.
    pub fn get_choice(&self, config: &GridConfig) -> (choice: Option<Choice>)
        requires
            config.wf(),
            self.id < config.slot_count(),
            self.wf(*config, self.id as int),
        ensures
            match choice {
                Some(choice) => choice.slot_id == self.id && only(
                    self@.domain(config.options(self.id as int)),
                    choice.word_id,
                ),
                None => self@.size(config.options(self.id as int)) != 1,
            },
            choice is Some == (self@.size(config.options(self.id as int)) == 1),
    {
        if let Some(word_id) = self.fixed_word_id {
            return Some(Choice { slot_id: self.id, word_id });
        }
        if self.remaining_option_count != 1 {
            return None;
        }
        let ghost options = config.options(self.id as int);
        let ghost open = not_eliminated(self.eliminations@);
        let words = &config.slot_options[self.id];
        proof {
            assert(config.slot_wf(self.id as int));
        }
        let mut i: usize = 0;
        while i < words.len()
            invariant
                config.wf(),
                self.id < config.slot_count(),
                config.slot_wf(self.id as int),
                self.wf(*config, self.id as int),
                self.fixed_word_id is None,
                options == config.options(self.id as int),
                words@ == options,
                open == not_eliminated(self.eliminations@),
                tally(options, open) == 1,
                0 <= i <= words@.len(),
                forall|k: int| 0 <= k < i ==> !open(#[trigger] options[k]),
            decreases words@.len() - i,
        {
            let word_id: WordId = words[i];
            if self.eliminations[word_id].is_none() {
                proof {
                    let domain = self@.domain(options);
                    assert(open(options[i as int]));
                    assert(options.contains(word_id));
                    assert forall|other: WordId| domain.contains(other) implies other
                        == word_id by {
                        let k = options.index_of(other);
                        assert(open(options[k]));
                        lemma_tally_single(options, open, i as int, k);
                    }
                }
                return Some(Choice { slot_id: self.id, word_id });
            }
            i = i + 1;
        }
        proof {
            let k = lemma_tally_witness(options, open);
        }
        None
    }

    /// How many words have been eliminated?
    pub fn elimination_count(&self) -> (count: usize)
        ensures
            count == tally(self.eliminations@, |e: Option<Option<SlotId>>| e is Some),
    {
        let ghost eliminated = |e: Option<Option<SlotId>>| e is Some;
        let mut count: usize = 0;
        let mut i: usize = 0;
        while i < self.eliminations.len()
            invariant
                0 <= i <= self.eliminations@.len(),
                eliminated == (|e: Option<Option<SlotId>>| e is Some),
                count == tally(self.eliminations@.take(i as int), eliminated),
                count <= i,
            decreases self.eliminations@.len() - i,
        {
            proof {
                assert(self.eliminations@.take(i + 1) =~= self.eliminations@.take(i as int).push(
                    self.eliminations@[i as int],
                ));
                lemma_tally_push(
                    self.eliminations@.take(i as int),
                    self.eliminations@[i as int],
                    eliminated,
                );
            }
            if self.eliminations[i].is_some() {
                count = count + 1;
            }
            i = i + 1;
        }
        assert(self.eliminations@.take(i as int) =~= self.eliminations@);
        count
    }
}

impl Clone for Slot {
    fn clone(&self) -> (copy: Self)
        ensures
            copy@ == self@,
            copy.id == self.id,
            forall|config: GridConfig, slot: int|
                self.wf(config, slot) ==> #[trigger] copy.wf(config, slot),
    {
        let fixed_glyph_counts_by_cell: Option<GlyphCountsByCell> =
            match &self.fixed_glyph_counts_by_cell {
            Some(counts) => Some(clone_counts(counts)),
            None => None,
        };
        let copy = Slot {
            id: self.id,
            length: self.length,
            eliminations: self.eliminations.clone(),
            glyph_counts_by_cell: clone_counts(&self.glyph_counts_by_cell),
            remaining_option_count: self.remaining_option_count,
            fixed_word_id: self.fixed_word_id,
            fixed_glyph_counts_by_cell,
        };
        proof {
            assert(copy.eliminations@ =~= self.eliminations@);
            assert forall|config: GridConfig, slot: int| self.wf(config, slot) implies #[trigger] copy.wf(
                config,
                slot,
            ) by {
                assert forall|c: int| 0 <= c < self.length implies cell_counts_match(
                    counts_of(#[trigger] copy.glyph_counts_by_cell@[c]),
                    *config.word_list,
                    self.length as int,
                    config.options(slot),
                    not_eliminated(self.eliminations@),
                    c,
                ) by {
                    assert(counts_of(copy.glyph_counts_by_cell@[c])
                        == counts_of(self.glyph_counts_by_cell@[c]));
                }
            }
        }
        copy
    }
}

/// Making a word available again undoes its elimination.
pub proof fn lemma_restore_undoes_eliminate(
    slot: SlotState,
    word: WordId,
    blamed: Option<SlotId>,
)
    requires
        word < slot.eliminations.len(),
        slot.eliminations[word as int] is None,
    ensures
        slot.eliminate(word, blamed).restore(word) == slot,
{
    assert(slot.eliminate(word, blamed).restore(word) =~= slot);
}

/// Clearing a choice undoes it: the eliminations are as they were before.
pub proof fn lemma_clear_undoes_choose(slot: SlotState, word: WordId)
    requires
        slot.fixed is None,
    ensures
        slot.fix(Some(word)).fix(None) == slot,
{
}

/// While a word is chosen for a slot, it is the only one in its domain.
pub proof fn lemma_choice_is_only(slot: SlotState, options: Seq<WordId>, word: WordId)
    ensures
        only(slot.fix(Some(word)).domain(options), word),
        slot.fix(Some(word)).size(options) == 1,
{
}

/// When a choice is undone, the words that it was to blame for are available again, and no others.
pub proof fn lemma_forgiven(slot: SlotState, blamed: SlotId, w: int)
    requires
        0 <= w < slot.eliminations.len(),
    ensures
        slot.forgive(blamed).eliminations[w] is None == (slot.eliminations[w] is None
            || slot.eliminations[w] == Some(Some(blamed))),
        slot.forgive(blamed).eliminations[w] is Some ==> slot.forgive(blamed).eliminations[w]
            == slot.eliminations[w],
        slot.forgive(blamed).fixed == slot.fixed,
{
}

/// A word that is eliminated is no longer among those that a slot without a choice may be filled with,
/// and the others stay.
pub proof fn lemma_eliminated(
    slot: SlotState,
    options: Seq<WordId>,
    word: WordId,
    blamed: Option<SlotId>,
    other: WordId,
)
    requires
        slot.fixed is None,
        word < slot.eliminations.len(),
        other < slot.eliminations.len(),
    ensures
        slot.eliminate(word, blamed).domain(options).contains(other) == (slot.domain(
            options,
        ).contains(other) && other != word),
{
}

} // verus!
