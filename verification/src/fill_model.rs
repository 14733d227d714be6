//! What it means for a grid to be filled.

use crate::grid_config::{Crossing, GridConfig};
use crate::types::{GlyphId, WordId};
use crate::util::{glyph_of, options_in_list};
use vstd::prelude::*;

verus! {

impl<'a> GridConfig<'a> {
    /// The number of slots.
    pub open spec fn slot_count(&self) -> nat {
        self.slot_configs@.len()
    }

    /// The number of cells of a slot.
    pub open spec fn slot_length(&self, slot: int) -> int {
        self.slot_configs@[slot].length as int
    }

    /// The options of a slot.
    pub open spec fn options(&self, slot: int) -> Seq<WordId> {
        self.slot_options@[slot]@
    }

    /// The glyph that a word puts into a cell of a slot.
    pub open spec fn glyph(&self, slot: int, word: WordId, cell: int) -> GlyphId {
        glyph_of(*self.word_list, self.slot_length(slot), word, cell)
    }

    /// The cell `cell` of the slot `slot` is the cell `other_cell` of the slot `other`.
    pub open spec fn crosses(&self, slot: int, cell: int, other: int, other_cell: int) -> bool {
        &&& 0 <= slot < self.slot_count()
        &&& 0 <= cell < self.slot_length(slot)
        &&& self.slot_configs@[slot].crossings@[cell] matches Some(crossing)
        &&& crossing.other_slot_id == other
        &&& crossing.other_slot_cell == other_cell
    }

    /// The word `other_word` in the slot `other` duplicates the word `word` in the slot `slot`.
    pub open spec fn clash(&self, slot: int, word: WordId, other: int, other_word: WordId) -> bool {
        self.word_list.dupe_index.model().dupes(
            (self.slot_configs@[slot].length, word),
            (self.slot_configs@[other].length, other_word),
        )
    }

    /// All cells of the slot were populated before filling started.
    pub open spec fn prefilled(&self, slot: int) -> bool {
        self.slot_configs@[slot].filled(self.fill@, self.width as int)
    }

    /// A slot and its options can be looked up everywhere.
    pub open spec fn slot_wf(&self, slot: int) -> bool {
        let config = self.slot_configs@[slot];
        &&& config.id == slot
        &&& config.crossings@.len() == config.length
        &&& config.fits(self.fill@.len() as int, self.width as int)
        &&& options_in_list(*self.word_list, config.length as int, self.options(slot))
        &&& self.options(slot).no_duplicates()
        &&& self.options(slot).len() <= u32::MAX
        &&& self.prefilled(slot) ==> self.options(slot).len() == 1
    }

    /// The crossing in a cell leads to another slot, which crosses back in the same square.
    pub open spec fn crossing_wf(&self, slot: int, cell: int, crossing: Crossing) -> bool {
        let other = crossing.other_slot_id as int;
        &&& other != slot
        &&& crossing.crossing_id < self.crossing_count
        &&& self.crosses(other, crossing.other_slot_cell as int, slot, cell)
        &&& self.slot_configs@[slot].cell(cell) == self.slot_configs@[other].cell(
            crossing.other_slot_cell as int,
        )
    }

    /// The options of a slot agree with the letters that are already in its cells.
    pub open spec fn options_match_fill(&self, slot: int) -> bool {
        forall|i: int, c: int|
            #![trigger self.glyph(slot, self.options(slot)[i], c)]
            0 <= i < self.options(slot).len() && 0 <= c < self.slot_length(slot) ==> match (
            self.fill@[self.slot_configs@[slot].fill_index(c, self.width as int)]) {
                Some(glyph) => self.glyph(slot, self.options(slot)[i], c) == glyph,
                None => true,
            }
    }

    /// The grid can be handed to a fill operation.
    pub open spec fn wf(&self) -> bool {
        &&& self.word_list.wf()
        &&& self.slot_options@.len() == self.slot_count()
        &&& forall|s: int| 0 <= s < self.slot_count() ==> #[trigger] self.slot_wf(s)
        &&& forall|s: int, c: int|
            #![trigger self.slot_configs@[s].crossings@[c]]
            0 <= s < self.slot_count() && 0 <= c < self.slot_length(s) ==> match (
            self.slot_configs@[s].crossings@[c]) {
                Some(crossing) => self.crossing_wf(s, c, crossing),
                None => true,
            }
        &&& forall|s: int| 0 <= s < self.slot_count() ==> #[trigger] self.options_match_fill(s)
    }
}

/// One word for each slot, in the order of the slots.
pub type Assignment = Seq<WordId>;

/// Every slot is filled with one of its options.
pub open spec fn uses_options(config: GridConfig, words: Assignment) -> bool {
    &&& words.len() == config.slot_count()
    &&& forall|s: int| 0 <= s < words.len() ==> config.options(s).contains(#[trigger] words[s])
}

/// Slots that cross have the same glyph in the square where they cross.
pub open spec fn crossings_agree(config: GridConfig, words: Assignment) -> bool {
    forall|i: int, c: int, j: int, d: int| #[trigger]
        config.crosses(i, c, j, d) ==> config.glyph(i, words[i], c) == config.glyph(j, words[j], d)
}

/// No entry duplicates another, except that entries which were both given may.
pub open spec fn no_clashes(config: GridConfig, words: Assignment) -> bool {
    forall|i: int, j: int|
        #![trigger config.clash(i, words[i], j, words[j])]
        0 <= i < config.slot_count() && 0 <= j < config.slot_count() && i != j && !(
        config.prefilled(i) && config.prefilled(j)) ==> !config.clash(i, words[i], j, words[j])
}

/// The words are a fill of the grid.
pub open spec fn is_fill(config: GridConfig, words: Assignment) -> bool {
    &&& uses_options(config, words)
    &&& crossings_agree(config, words)
    &&& no_clashes(config, words)
}

/// The grid has a fill.
pub open spec fn fillable(config: GridConfig) -> bool {
    exists|words: Assignment| is_fill(config, words)
}

/// The words that each slot may still be filled with.
pub type Domains = Seq<Set<WordId>>;

/// The word is the only one in the domain.
pub open spec fn only(domain: Set<WordId>, word: WordId) -> bool {
    domain.contains(word) && forall|other: WordId| domain.contains(other) ==> other == word
}

/// Every domain is part of the corresponding one.
pub open spec fn within(inner: Domains, outer: Domains) -> bool {
    &&& inner.len() == outer.len()
    &&& forall|s: int, w: WordId|
        0 <= s < inner.len() && #[trigger] inner[s].contains(w) ==> outer[s].contains(w)
}

/// The domain has a word.
pub open spec fn nonempty(domain: Set<WordId>) -> bool {
    exists|w: WordId| domain.contains(w)
}

/// No domain is empty.
pub open spec fn inhabited(domains: Domains) -> bool {
    forall|s: int| 0 <= s < domains.len() ==> nonempty(#[trigger] domains[s])
}

/// Every word in the domain of `j` agrees, in the square where `j` crosses the cell `c` of `i`,
/// with some word in the domain of `i`.
pub open spec fn supported(
    config: GridConfig,
    domains: Domains,
    i: int,
    c: int,
    j: int,
    d: int,
) -> bool {
    forall|v: WordId| #[trigger]
        domains[j].contains(v) ==> exists|u: WordId| #[trigger]
            domains[i].contains(u) && config.glyph(i, u, c) == config.glyph(j, v, d)
}

/// If only one word is left for `i`, no word in the domain of `j` duplicates it.
pub open spec fn apart(config: GridConfig, domains: Domains, i: int, j: int) -> bool {
    forall|u: WordId, v: WordId|
        #![trigger domains[i].contains(u), domains[j].contains(v)]
        only(domains[i], u) && domains[j].contains(v) ==> !config.clash(i, u, j, v)
}

/// The words left for `i` rule out no further word of any slot that isn't fixed.
pub open spec fn settled(config: GridConfig, fixed: Seq<bool>, domains: Domains, i: int) -> bool {
    &&& forall|c: int, j: int, d: int| #[trigger]
        config.crosses(i, c, j, d) && !fixed[j] ==> supported(config, domains, i, c, j, d)
    &&& forall|j: int|
        #![trigger apart(config, domains, i, j)]
        0 <= j < config.slot_count() && j != i && !fixed[j] ==> apart(config, domains, i, j)
}

/// Arc consistency: every slot has a word left, and no slot rules out a word of a slot that isn't
/// fixed.
pub open spec fn consistent(config: GridConfig, fixed: Seq<bool>, domains: Domains) -> bool {
    &&& domains.len() == config.slot_count()
    &&& inhabited(domains)
    &&& forall|i: int|
        0 <= i < config.slot_count() ==> #[trigger] settled(config, fixed, domains, i)
}

/// The consistent domains within `outer` are all within `inner`.
#[verifier::opaque]
pub open spec fn retains(
    config: GridConfig,
    fixed: Seq<bool>,
    outer: Domains,
    inner: Domains,
) -> bool {
    forall|e: Domains| #[trigger]
        consistent(config, fixed, e) && within(e, outer) ==> within(e, inner)
}

/// The domains that hold one word each.
pub open spec fn singletons(words: Assignment) -> Domains {
    words.map_values(|w: WordId| set![w])
}

/// The words are all left for their slots.
pub open spec fn allows(domains: Domains, words: Assignment) -> bool {
    &&& domains.len() == words.len()
    &&& forall|s: int| 0 <= s < words.len() ==> (#[trigger] domains[s]).contains(words[s])
}

/// A fill is consistent by itself, provided that given entries are among the fixed slots.
pub proof fn lemma_fill_is_consistent(config: GridConfig, fixed: Seq<bool>, words: Assignment)
    requires
        config.wf(),
        is_fill(config, words),
        fixed.len() == config.slot_count(),
        forall|s: int| 0 <= s < fixed.len() && config.prefilled(s) ==> #[trigger] fixed[s],
    ensures
        consistent(config, fixed, singletons(words)),
{
    let domains = singletons(words);
    assert forall|s: int| 0 <= s < domains.len() implies nonempty(#[trigger] domains[s]) by {
        assert(domains[s].contains(words[s]));
    }
    assert(inhabited(domains));
    assert(domains.len() == config.slot_count());
    assert forall|i: int| 0 <= i < config.slot_count() implies #[trigger] settled(
        config,
        fixed,
        domains,
        i,
    ) by {
        assert forall|c: int, j: int, d: int| #[trigger]
            config.crosses(i, c, j, d) && !fixed[j] implies supported(
            config,
            domains,
            i,
            c,
            j,
            d,
        ) by {
            assert forall|v: WordId| #[trigger] domains[j].contains(v) implies exists|u: WordId|
                #[trigger]
                domains[i].contains(u) && config.glyph(i, u, c) == config.glyph(j, v, d) by {
                assert(0 <= j < config.slot_count());
                assert(v == words[j]);
                assert(domains[i].contains(words[i]));
            }
        }
        assert forall|j: int|
            #![trigger apart(config, domains, i, j)]
            0 <= j < config.slot_count() && j != i && !fixed[j] implies apart(
            config,
            domains,
            i,
            j,
        ) by {
            assert(!config.prefilled(j));
            assert(!config.clash(i, words[i], j, words[j]));
        }
    }
}

/// Shrinking the domains of other slots leaves a slot settled.
pub proof fn lemma_settled_shrink(
    config: GridConfig,
    fixed: Seq<bool>,
    before: Domains,
    after: Domains,
    i: int,
)
    requires
        config.wf(),
        before.len() == config.slot_count(),
        within(after, before),
        0 <= i < before.len(),
        after[i] == before[i],
        settled(config, fixed, before, i),
    ensures
        settled(config, fixed, after, i),
{
    assert forall|c: int, j: int, d: int| #[trigger]
        config.crosses(i, c, j, d) && !fixed[j] implies supported(
        config,
        after,
        i,
        c,
        j,
        d,
    ) by {
        assert(supported(config, before, i, c, j, d));
        lemma_supported_shrink(config, before, after, i, c, j, d);
    }
    assert forall|j: int|
        #![trigger apart(config, after, i, j)]
        0 <= j < config.slot_count() && j != i && !fixed[j] implies apart(
        config,
        after,
        i,
        j,
    ) by {
        assert(apart(config, before, i, j));
        assert forall|u: WordId, v: WordId|
            #![trigger after[i].contains(u), after[j].contains(v)]
            only(after[i], u) && after[j].contains(v) implies !config.clash(i, u, j, v) by {
            assert(before[i].contains(u));
            assert(before[j].contains(v));
        }
    }
}

/// Shrinking the domain of the crossing slot keeps its words supported.
pub proof fn lemma_supported_shrink(
    config: GridConfig,
    before: Domains,
    after: Domains,
    i: int,
    c: int,
    j: int,
    d: int,
)
    requires
        config.wf(),
        before.len() == config.slot_count(),
        within(after, before),
        config.crosses(i, c, j, d),
        after[i] == before[i],
        supported(config, before, i, c, j, d),
    ensures
        supported(config, after, i, c, j, d),
{
    assert(0 <= j < config.slot_count());
    assert forall|v: WordId| #[trigger] after[j].contains(v) implies exists|u: WordId| #[trigger]
        after[i].contains(u) && config.glyph(i, u, c) == config.glyph(j, v, d) by {
        assert(before[j].contains(v));
        let u = choose|u: WordId| #[trigger]
            before[i].contains(u) && config.glyph(i, u, c) == config.glyph(j, v, d);
        assert(after[i].contains(u));
    }
}

/// Once it is known that no consistent domains give `word` to the slot `j`, it can be removed.
pub proof fn lemma_retains_remove(
    config: GridConfig,
    fixed: Seq<bool>,
    outer: Domains,
    inner: Domains,
    after: Domains,
    j: int,
    word: WordId,
)
    requires
        retains(config, fixed, outer, inner),
        0 <= j < inner.len(),
        after.len() == inner.len(),
        forall|s: int| 0 <= s < inner.len() && s != j ==> after[s] == inner[s],
        forall|w: WordId| #[trigger]
            after[j].contains(w) == (inner[j].contains(w) && w != word),
        forall|e: Domains| #[trigger]
            consistent(config, fixed, e) && within(e, inner) ==> !e[j].contains(word),
    ensures
        retains(config, fixed, outer, after),
{
    reveal(retains);
    assert forall|e: Domains| #[trigger]
        consistent(config, fixed, e) && within(e, outer) implies within(e, after) by {
        assert(within(e, inner));
        assert forall|s: int, w: WordId|
            0 <= s < e.len() && #[trigger] e[s].contains(w) implies after[s].contains(w) by {
            assert(inner[s].contains(w));
        }
    }
}

/// A word that no word of the crossing slot agrees with is in no consistent domains.
pub proof fn lemma_unsupported(
    config: GridConfig,
    fixed: Seq<bool>,
    domains: Domains,
    i: int,
    c: int,
    j: int,
    d: int,
    word: WordId,
)
    requires
        config.wf(),
        domains.len() == config.slot_count(),
        config.crosses(i, c, j, d),
        !fixed[j],
        forall|u: WordId| #[trigger]
            domains[i].contains(u) ==> config.glyph(i, u, c) != config.glyph(j, word, d),
    ensures
        forall|e: Domains| #[trigger]
            consistent(config, fixed, e) && within(e, domains) ==> !e[j].contains(word),
{
    assert forall|e: Domains| #[trigger]
        consistent(config, fixed, e) && within(e, domains) implies !e[j].contains(word) by {
        assert(settled(config, fixed, e, i));
        assert(supported(config, e, i, c, j, d));
        if e[j].contains(word) {
            let u = choose|u: WordId| #[trigger]
                e[i].contains(u) && config.glyph(i, u, c) == config.glyph(j, word, d);
            assert(domains[i].contains(u));
        }
    }
}

/// A word that duplicates the only word of another slot is in no consistent domains.
pub proof fn lemma_clashing(
    config: GridConfig,
    fixed: Seq<bool>,
    domains: Domains,
    i: int,
    word: WordId,
    j: int,
    other: WordId,
)
    requires
        domains.len() == config.slot_count(),
        0 <= i < config.slot_count(),
        0 <= j < config.slot_count(),
        i != j,
        !fixed[j],
        only(domains[i], word),
        config.clash(i, word, j, other),
    ensures
        forall|e: Domains| #[trigger]
            consistent(config, fixed, e) && within(e, domains) ==> !e[j].contains(other),
{
    assert forall|e: Domains| #[trigger]
        consistent(config, fixed, e) && within(e, domains) implies !e[j].contains(other) by {
        assert(settled(config, fixed, e, i));
        assert(apart(config, e, i, j));
        assert(nonempty(e[i]));
        let u = choose|u: WordId| e[i].contains(u);
        assert(domains[i].contains(u));
        assert(only(e[i], word)) by {
            assert forall|x: WordId| e[i].contains(x) implies x == word by {
                assert(domains[i].contains(x));
            }
        }
    }
}

/// When the last word of a slot goes, there are no consistent domains.
pub proof fn lemma_wiped_out(
    config: GridConfig,
    fixed: Seq<bool>,
    outer: Domains,
    inner: Domains,
    j: int,
    word: WordId,
)
    requires
        retains(config, fixed, outer, inner),
        0 <= j < inner.len(),
        inner.len() == config.slot_count(),
        forall|w: WordId| #[trigger] inner[j].contains(w) ==> w == word,
        forall|e: Domains| #[trigger]
            consistent(config, fixed, e) && within(e, inner) ==> !e[j].contains(word),
    ensures
        forall|e: Domains| #[trigger] consistent(config, fixed, e) ==> !within(e, outer),
{
    reveal(retains);
    assert forall|e: Domains| #[trigger] consistent(config, fixed, e) implies !within(
        e,
        outer,
    ) by {
        if within(e, outer) {
            assert(within(e, inner));
            assert(nonempty(e[j]));
            let w = choose|w: WordId| e[j].contains(w);
            assert(inner[j].contains(w));
        }
    }
}

} // verus!
