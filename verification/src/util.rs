//! Counting the glyphs that the options of a slot have in each cell.

use crate::counting::{
    lemma_tally_bound, lemma_tally_push, lemma_tally_same, lemma_tally_withdraw, lemma_total_update,
    lemma_total_zero, tally, total,
};
use crate::types::{GlyphId, WordId};
use crate::word_list::WordList;
use crate::MAX_GLYPH_COUNT;
use smallvec::SmallVec;
use vstd::prelude::*;

verus! {

/// The number of occurrences of each glyph in one cell, indexed by `GlyphId`.
#[verifier::external_body]
pub struct GlyphCounts {
    counts: SmallVec<[u32; MAX_GLYPH_COUNT]>,
}

/// The numbers that a `GlyphCounts` holds, in order.
pub uninterp spec fn counts_of(counts: GlyphCounts) -> Seq<u32>;

/// `SmallVec::new`: a vector that holds nothing.
#[verifier::external_body]
fn counts_new() -> (counts: GlyphCounts)
    ensures
        counts_of(counts) == Seq::<u32>::empty(),
{
    GlyphCounts { counts: SmallVec::new() }
}

/// `SmallVec::push`: the value goes to the end, whether or not the inline capacity is exhausted.
#[verifier::external_body]
fn counts_push(counts: &mut GlyphCounts, value: u32)
    ensures
        counts_of(*final(counts)) == counts_of(*old(counts)).push(value),
{
    counts.counts.push(value);
}

/// Indexing a `SmallVec`: the element at a position.
#[verifier::external_body]
pub(crate) fn counts_get(counts: &GlyphCounts, index: usize) -> (value: u32)
    requires
        index < counts_of(*counts).len(),
    ensures
        value == counts_of(*counts)[index as int],
{
    counts.counts[index]
}

/// Mutable indexing of a `SmallVec`: the element at a position is replaced, the others stay.
#[verifier::external_body]
pub(crate) fn counts_set(counts: &mut GlyphCounts, index: usize, value: u32)
    requires
        index < counts_of(*old(counts)).len(),
    ensures
        counts_of(*final(counts)) == counts_of(*old(counts)).update(index as int, value),
{
    counts.counts[index] = value;
}

/// `SmallVec::clone`: a vector with the same elements in the same order.
#[verifier::external_body]
pub(crate) fn counts_clone(counts: &GlyphCounts) -> (copy: GlyphCounts)
    ensures
        counts_of(copy) == counts_of(*counts),
{
    GlyphCounts { counts: counts.counts.clone() }
}

/// Structure used to efficiently prune options based on their crossings. One of these reflects all
/// of the currently-available options for a single slot.
///
/// The outer `Vec` has an entry for each cell; each of these entries is indexed by `GlyphId` and
/// contains the number of times that glyph occurs in that position in all of the available
/// options.
pub type GlyphCountsByCell = Vec<GlyphCounts>;

/// The glyph in a cell of a word.
pub open spec fn glyph_of(word_list: WordList, length: int, id: WordId, cell: int) -> GlyphId {
    word_list.words@[length]@[id as int].glyphs@[cell]
}

/// The available words that have the glyph `glyph` in the cell `cell`.
pub open spec fn counted(
    word_list: WordList,
    length: int,
    available: spec_fn(WordId) -> bool,
    cell: int,
    glyph: int,
) -> spec_fn(WordId) -> bool {
    |id: WordId| available(id) && glyph_of(word_list, length, id, cell) == glyph
}

/// The counts of one cell: for each glyph, how many of the words among `options` that are
/// available have it there.
pub open spec fn cell_counts_match(
    counts: Seq<u32>,
    word_list: WordList,
    length: int,
    options: Seq<WordId>,
    available: spec_fn(WordId) -> bool,
    cell: int,
) -> bool {
    &&& counts.len() == word_list.glyphs@.len()
    &&& forall|g: int|
        0 <= g < counts.len() ==> #[trigger] counts[g] == tally(
            options,
            counted(word_list, length, available, cell, g),
        )
}

/// The counts of all cells of a slot.
pub open spec fn counts_match(
    counts: Seq<GlyphCounts>,
    word_list: WordList,
    length: int,
    options: Seq<WordId>,
    available: spec_fn(WordId) -> bool,
) -> bool {
    &&& counts.len() == length
    &&& forall|c: int|
        0 <= c < length ==> cell_counts_match(
            counts_of(#[trigger] counts[c]),
            word_list,
            length,
            options,
            available,
            c,
        )
}

/// Every word is available.
pub open spec fn all_words() -> spec_fn(WordId) -> bool {
    |id: WordId| true
}

/// The options are words of the given length, each made of known glyphs.
pub open spec fn options_in_list(word_list: WordList, length: int, options: Seq<WordId>) -> bool {
    &&& 0 <= length < word_list.words@.len()
    &&& forall|i: int|
        0 <= i < options.len() ==> #[trigger] options[i] < word_list.words@[length]@.len()
    &&& forall|i: int|
        0 <= i < options.len() ==> word_list.word_wf(
            length,
            word_list.words@[length]@[#[trigger] options[i] as int],
        )
}

/// Copy a table of counts.
pub fn clone_counts(counts: &GlyphCountsByCell) -> (copy: GlyphCountsByCell)
    ensures
        copy@.len() == counts@.len(),
        forall|c: int|
            0 <= c < copy@.len() ==> counts_of(#[trigger] copy@[c]) == counts_of(counts@[c]),
{
    let mut copy: GlyphCountsByCell = Vec::new();
    let mut c: usize = 0;
    while c < counts.len()
        invariant
            0 <= c <= counts@.len(),
            copy@.len() == c,
            forall|k: int|
                0 <= k < c ==> counts_of(#[trigger] copy@[k]) == counts_of(counts@[k]),
        decreases counts@.len() - c,
    {
        copy.push(counts_clone(&counts[c]));
        c = c + 1;
    }
    copy
}

/// Zero for each of the given number of glyphs.
fn zero_counts(glyphs: usize) -> (counts: GlyphCounts)
    ensures
        counts_of(counts) == Seq::new(glyphs as nat, |g: int| 0u32),
{
    let mut counts: GlyphCounts = counts_new();
    let mut g: usize = 0;
    while g < glyphs
        invariant
            0 <= g <= glyphs,
            counts_of(counts) =~= Seq::new(g as nat, |k: int| 0u32),
        decreases glyphs - g,
    {
        counts_push(&mut counts, 0);
        g = g + 1;
    }
    counts
}

/// Count one more word in every cell.
pub fn count_word(
    counts: &mut GlyphCountsByCell,
    word_list: &WordList,
    length: usize,
    id: WordId,
    Ghost(options): Ghost<Seq<WordId>>,
    Ghost(before): Ghost<spec_fn(WordId) -> bool>,
    Ghost(later_options): Ghost<Seq<WordId>>,
    Ghost(after): Ghost<spec_fn(WordId) -> bool>,
)
    requires
        options_in_list(*word_list, length as int, seq![id]),
        counts_match(old(counts)@, *word_list, length as int, options, before),
        later_options.len() <= u32::MAX,
        forall|c: int, g: int|
            #![trigger counted(*word_list, length as int, after, c, g)]
            tally(later_options, counted(*word_list, length as int, after, c, g)) == tally(
                options,
                counted(*word_list, length as int, before, c, g),
            ) + (if glyph_of(*word_list, length as int, id, c) == g {
                1nat
            } else {
                0nat
            }),
    ensures
        counts_match(final(counts)@, *word_list, length as int, later_options, after),
{
    assert(seq![id][0] == id);
    let word = &word_list.words[length][id];
    let mut c: usize = 0;
    while c < length
        invariant
            0 <= c <= length,
            length < word_list.words@.len(),
            id < word_list.words@[length as int]@.len(),
            *word == word_list.words@[length as int]@[id as int],
            word_list.word_wf(length as int, *word),
            later_options.len() <= u32::MAX,
            counts@.len() == length,
            forall|k: int|
                0 <= k < c ==> cell_counts_match(
                    counts_of(#[trigger] counts@[k]),
                    *word_list,
                    length as int,
                    later_options,
                    after,
                    k,
                ),
            forall|k: int|
                c <= k < length ==> cell_counts_match(
                    counts_of(#[trigger] counts@[k]),
                    *word_list,
                    length as int,
                    options,
                    before,
                    k,
                ),
            forall|c: int, g: int|
                #![trigger counted(*word_list, length as int, after, c, g)]
                tally(later_options, counted(*word_list, length as int, after, c, g)) == tally(
                    options,
                    counted(*word_list, length as int, before, c, g),
                ) + (if glyph_of(*word_list, length as int, id, c) == g {
                    1nat
                } else {
                    0nat
                }),
        decreases length - c,
    {
        let glyph: GlyphId = word.glyphs[c];
        assert(glyph < word_list.glyphs@.len());
        let ghost cell = counts_of(counts@[c as int]);
        proof {
            assert(cell_counts_match(cell, *word_list, length as int, options, before, c as int));
            assert(cell[glyph as int] == tally(
                options,
                counted(*word_list, length as int, before, c as int, glyph as int),
            ));
            lemma_tally_bound(
                later_options,
                counted(*word_list, length as int, after, c as int, glyph as int),
            );
        }
        let ghost earlier = counts@;
        let count: u32 = counts_get(&counts[c], glyph);
        counts_set(&mut counts[c], glyph, count + 1);
        proof {
            let now = counts_of(counts@[c as int]);
            assert forall|g: int| 0 <= g < now.len() implies #[trigger] now[g] == tally(
                later_options,
                counted(*word_list, length as int, after, c as int, g),
            ) by {
                assert(cell[g] == tally(
                    options,
                    counted(*word_list, length as int, before, c as int, g),
                ));
            }
        }
        c = c + 1;
    }
}

/// Count one word less in every cell.
pub fn discount_word(
    counts: &mut GlyphCountsByCell,
    word_list: &WordList,
    length: usize,
    id: WordId,
    Ghost(options): Ghost<Seq<WordId>>,
    Ghost(before): Ghost<spec_fn(WordId) -> bool>,
    Ghost(after): Ghost<spec_fn(WordId) -> bool>,
)
    requires
        options_in_list(*word_list, length as int, seq![id]),
        counts_match(old(counts)@, *word_list, length as int, options, before),
        forall|c: int, g: int|
            #![trigger counted(*word_list, length as int, after, c, g)]
            tally(options, counted(*word_list, length as int, before, c, g)) == tally(
                options,
                counted(*word_list, length as int, after, c, g),
            ) + (if glyph_of(*word_list, length as int, id, c) == g {
                1nat
            } else {
                0nat
            }),
    ensures
        counts_match(final(counts)@, *word_list, length as int, options, after),
{
    assert(seq![id][0] == id);
    let word = &word_list.words[length][id];
    let mut c: usize = 0;
    while c < length
        invariant
            0 <= c <= length,
            length < word_list.words@.len(),
            id < word_list.words@[length as int]@.len(),
            *word == word_list.words@[length as int]@[id as int],
            word_list.word_wf(length as int, *word),
            counts@.len() == length,
            forall|k: int|
                0 <= k < c ==> cell_counts_match(
                    counts_of(#[trigger] counts@[k]),
                    *word_list,
                    length as int,
                    options,
                    after,
                    k,
                ),
            forall|k: int|
                c <= k < length ==> cell_counts_match(
                    counts_of(#[trigger] counts@[k]),
                    *word_list,
                    length as int,
                    options,
                    before,
                    k,
                ),
            forall|c: int, g: int|
                #![trigger counted(*word_list, length as int, after, c, g)]
                tally(options, counted(*word_list, length as int, before, c, g)) == tally(
                    options,
                    counted(*word_list, length as int, after, c, g),
                ) + (if glyph_of(*word_list, length as int, id, c) == g {
                    1nat
                } else {
                    0nat
                }),
        decreases length - c,
    {
        let glyph: GlyphId = word.glyphs[c];
        assert(glyph < word_list.glyphs@.len());
        let ghost cell = counts_of(counts@[c as int]);
        proof {
            assert(cell_counts_match(cell, *word_list, length as int, options, before, c as int));
            assert(cell[glyph as int] == tally(
                options,
                counted(*word_list, length as int, before, c as int, glyph as int),
            ));
            let kept = counted(*word_list, length as int, after, c as int, glyph as int);
            assert(cell[glyph as int] == tally(options, kept) + 1);
        }
        let count: u32 = counts_get(&counts[c], glyph);
        counts_set(&mut counts[c], glyph, count - 1);
        proof {
            let now = counts_of(counts@[c as int]);
            assert forall|g: int| 0 <= g < now.len() implies #[trigger] now[g] == tally(
                options,
                counted(*word_list, length as int, after, c as int, g),
            ) by {
                assert(cell[g] == tally(
                    options,
                    counted(*word_list, length as int, before, c as int, g),
                ));
            }
        }
        c = c + 1;
    }
}

/// Withdrawing one word from the available ones lowers exactly the tallies of its own glyphs.
pub proof fn lemma_counted_withdraw(
    word_list: WordList,
    length: int,
    options: Seq<WordId>,
    before: spec_fn(WordId) -> bool,
    after: spec_fn(WordId) -> bool,
    id: WordId,
)
    requires
        options.no_duplicates(),
        options.contains(id),
        before(id),
        !after(id),
        forall|i: int|
            0 <= i < options.len() && options[i] != id ==> before(#[trigger] options[i]) == after(
                options[i],
            ),
    ensures
        forall|c: int, g: int|
            #![trigger counted(word_list, length, after, c, g)]
            tally(options, counted(word_list, length, before, c, g)) == tally(
                options,
                counted(word_list, length, after, c, g),
            ) + (if glyph_of(word_list, length, id, c) == g {
                1nat
            } else {
                0nat
            }),
        tally(options, before) == tally(options, after) + 1,
{
    let at = options.index_of(id);
    assert forall|c: int, g: int|
        #![trigger counted(word_list, length, after, c, g)]
        tally(options, counted(word_list, length, before, c, g)) == tally(
            options,
            counted(word_list, length, after, c, g),
        ) + (if glyph_of(word_list, length, id, c) == g {
            1nat
        } else {
            0nat
        }) by {
        let p = counted(word_list, length, before, c, g);
        let q = counted(word_list, length, after, c, g);
        assert forall|i: int| 0 <= i < options.len() && options[i] != options[at] implies p(
            #[trigger] options[i],
        ) == q(options[i]) by {
            assert(before(options[i]) == after(options[i]));
        }
        if glyph_of(word_list, length, id, c) == g {
            lemma_tally_withdraw(options, p, q, at);
        } else {
            lemma_tally_same(options, p, q);
        }
    }
    assert forall|i: int| 0 <= i < options.len() && options[i] != options[at] implies before(
        #[trigger] options[i],
    ) == after(options[i]) by {}
    lemma_tally_withdraw(options, before, after, at);
}

/// Initialize the `glyph_counts_by_cell` structure for a slot.
pub fn build_glyph_counts_by_cell(
    word_list: &WordList,
    slot_length: usize,
    options: &[WordId],
) -> (result: GlyphCountsByCell)
    requires
        options_in_list(*word_list, slot_length as int, options@),
        options@.len() <= u32::MAX,
    ensures
        counts_match(result@, *word_list, slot_length as int, options@, all_words()),
{
    let mut result: GlyphCountsByCell = Vec::new();
    let glyphs: usize = word_list.glyphs.len();
    let mut c: usize = 0;
    while c < slot_length
        invariant
            0 <= c <= slot_length,
            glyphs == word_list.glyphs@.len(),
            result@.len() == c,
            forall|k: int|
                0 <= k < c ==> counts_of(#[trigger] result@[k]) == Seq::new(
                    glyphs as nat,
                    |g: int| 0u32,
                ),
        decreases slot_length - c,
    {
        result.push(zero_counts(glyphs));
        c = c + 1;
    }
    let mut i: usize = 0;
    while i < options.len()
        invariant
            0 <= i <= options@.len(),
            options_in_list(*word_list, slot_length as int, options@),
            options@.len() <= u32::MAX,
            counts_match(
                result@,
                *word_list,
                slot_length as int,
                options@.take(i as int),
                all_words(),
            ),
        decreases options@.len() - i,
    {
        let ghost earlier = options@.take(i as int);
        let ghost later = options@.take(i + 1);
        proof {
            assert(later =~= earlier.push(options@[i as int]));
            assert forall|c: int, g: int|
                #![trigger counted(*word_list, slot_length as int, all_words(), c, g)]
                tally(later, counted(*word_list, slot_length as int, all_words(), c, g)) == tally(
                    earlier,
                    counted(*word_list, slot_length as int, all_words(), c, g),
                ) + (if glyph_of(*word_list, slot_length as int, options@[i as int], c) == g {
                    1nat
                } else {
                    0nat
                }) by {
                lemma_tally_push(
                    earlier,
                    options@[i as int],
                    counted(*word_list, slot_length as int, all_words(), c, g),
                );
            }
        }
        count_word(
            &mut result,
            word_list,
            slot_length,
            options[i],
            Ghost(earlier),
            Ghost(all_words()),
            Ghost(later),
            Ghost(all_words()),
        );
        i = i + 1;
    }
    assert(options@.take(i as int) =~= options@);
    result
}

/// The number of options with each glyph in a cell.
pub open spec fn glyph_tallies(
    word_list: WordList,
    length: int,
    options: Seq<WordId>,
    cell: int,
) -> Seq<nat> {
    Seq::new(
        word_list.glyphs@.len(),
        |g: int| tally(options, counted(word_list, length, all_words(), cell, g)),
    )
}

/// Every option has exactly one glyph in a cell, so the counts of the glyphs add up to the number of
/// options.
pub proof fn lemma_counts_add_up(
    word_list: WordList,
    length: int,
    options: Seq<WordId>,
    cell: int,
)
    requires
        options_in_list(word_list, length, options),
        0 <= cell < length,
    ensures
        total(glyph_tallies(word_list, length, options, cell)) == options.len(),
    decreases options.len(),
{
    let tallies = glyph_tallies(word_list, length, options, cell);
    if options.len() == 0 {
        assert forall|g: int| 0 <= g < tallies.len() implies tallies[g] == 0 by {}
        lemma_total_zero(tallies);
    } else {
        let front = options.drop_last();
        let word = options.last();
        assert(word == options[options.len() - 1]);
        assert forall|i: int| 0 <= i < front.len() implies #[trigger] front[i]
            < word_list.words@[length]@.len() && word_list.word_wf(
            length,
            word_list.words@[length]@[front[i] as int],
        ) by {
            assert(front[i] == options[i]);
        }
        lemma_counts_add_up(word_list, length, front, cell);
        let fewer = glyph_tallies(word_list, length, front, cell);
        let glyph = glyph_of(word_list, length, word, cell) as int;
        assert(word_list.word_wf(length, word_list.words@[length]@[word as int]));
        assert(0 <= glyph < word_list.glyphs@.len());
        assert(tallies =~= fewer.update(glyph, fewer[glyph] + 1)) by {
            assert forall|g: int| 0 <= g < tallies.len() implies tallies[g] == fewer.update(
                glyph,
                fewer[glyph] + 1,
            )[g] by {
                let p = counted(word_list, length, all_words(), cell, g);
                assert(tally(options, p) == tally(front, p) + (if p(word) {
                    1nat
                } else {
                    0nat
                }));
                assert(p(word) == (glyph == g));
            }
        }
        lemma_total_update(fewer, glyph, fewer[glyph] + 1);
    }
}

} // verus!
