//! Putting the options of each slot into the order in which they are tried.

use crate::counting::{lemma_tally_filter, lemma_tally_same, tally};
use crate::grid_config::{Crossing, SlotConfig};
use crate::sorting::{
    is_stable_order, lemma_in_order_distinct, lemma_stable_order_unique, precedes, stable_order,
};
use crate::types::{GlyphId, WordId};
use crate::util::{
    all_words, build_glyph_counts_by_cell, cell_counts_match, counted, counts_get, counts_match,
    counts_of, options_in_list, GlyphCountsByCell,
};
use crate::word_list::{Word, WordList};
use vstd::prelude::*;

verus! {

/// How fillability is measured.
pub trait FillScorer {
    /// Score a word, given the number of crossing options that are compatible with each of its
    /// letters (where there is a crossing).
    fn fill_score(&self, crossing_counts: &Vec<Option<u32>>) -> i64;
}

/// A number, or the closest one that can be represented.
pub open spec fn clamped(n: int) -> i64 {
    if n < i64::MIN {
        i64::MIN
    } else if n > i64::MAX {
        i64::MAX
    } else {
        n as i64
    }
}

/// The key by which a word is sorted: lower means better.
pub open spec fn option_key(word: Word, fill_score: i64) -> i64 {
    clamped(-(fill_score + 5 * word.letter_score + 5 * word.score))
}

/// The keys of a slot's options.
pub open spec fn option_keys(
    word_list: WordList,
    length: int,
    options: Seq<WordId>,
    fill_scores: Seq<i64>,
) -> Seq<i64> {
    Seq::new(
        options.len(),
        |i: int| option_key(word_list.words@[length]@[options[i] as int], fill_scores[i]),
    )
}

/// Calculate the key by which a word is sorted. This is arbitrary, based on visual inspection of the
/// ranges for each value. Generally increasing the weight of `fill_score` relative to the other two
/// will reduce fill time.
pub fn calculate_option_key(word: &Word, fill_score: i64) -> (key: i64)
    ensures
        key == option_key(*word, fill_score),
{
    let score: i128 = fill_score as i128 + 5 * (word.letter_score as i128) + 5 * (
    word.score as i128);
    let key: i128 = -score;
    if key < i64::MIN as i128 {
        i64::MIN
    } else if key > i64::MAX as i128 {
        i64::MAX
    } else {
        key as i64
    }
}

/// The items are those of `old`, taken from these positions.
pub open spec fn taken_from(new: Seq<WordId>, old: Seq<WordId>, positions: Seq<usize>) -> bool {
    &&& new.len() == positions.len()
    &&& forall|k: int| 0 <= k < new.len() ==> #[trigger] new[k] == old[positions[k] as int]
}

/// The positions are all positions up to a length, each once.
pub open spec fn is_permutation(positions: Seq<usize>, length: nat) -> bool {
    &&& positions.len() == length
    &&& positions.no_duplicates()
    &&& forall|k: int| 0 <= k < positions.len() ==> #[trigger] positions[k] < length
    &&& forall|p: usize| p < length ==> #[trigger] positions.contains(p)
}

/// The items are those of `old` in another order.
pub open spec fn is_reordering(new: Seq<WordId>, old: Seq<WordId>) -> bool {
    exists|positions: Seq<usize>| #[trigger]
        is_permutation(positions, old.len()) && taken_from(new, old, positions)
}

/// Another order has the same items, and no repetition if there was none.
pub proof fn lemma_reordering(new: Seq<WordId>, old: Seq<WordId>)
    requires
        is_reordering(new, old),
        old.len() <= usize::MAX,
    ensures
        new.len() == old.len(),
        forall|w: WordId| #[trigger] new.contains(w) <==> old.contains(w),
        old.no_duplicates() ==> new.no_duplicates(),
{
    let positions = choose|positions: Seq<usize>| #[trigger]
        is_permutation(positions, old.len()) && taken_from(new, old, positions);
    assert forall|w: WordId| #[trigger] new.contains(w) <==> old.contains(w) by {
        if new.contains(w) {
            let k = new.index_of(w);
            assert(new[k] == old[positions[k] as int]);
            assert(positions[k] < old.len());
        }
        if old.contains(w) {
            let p = old.index_of(w) as usize;
            assert(positions.contains(p));
            let k = positions.index_of(p);
            assert(new[k] == old[positions[k] as int]);
        }
    }
    if old.no_duplicates() {
        assert forall|i: int, k: int| 0 <= i < new.len() && 0 <= k < new.len() && i != k implies new[i]
            != new[k] by {
            assert(new[i] == old[positions[i] as int]);
            assert(new[k] == old[positions[k] as int]);
            assert(positions[i] != positions[k]);
            assert(positions[i] < old.len() && positions[k] < old.len());
        }
    }
}

/// The options are sorted by their keys, given the fill score of each. Options with the same key keep
/// their order.
pub open spec fn sorted_by(
    word_list: WordList,
    length: int,
    options: Seq<WordId>,
    fill_scores: Seq<i64>,
    sorted: Seq<WordId>,
) -> bool {
    &&& fill_scores.len() == options.len()
    &&& exists|order: Seq<usize>| #[trigger]
        is_stable_order(option_keys(word_list, length, options, fill_scores), order) && taken_from(
            sorted,
            options,
            order,
        )
}

/// The scorer gives the word a score for its number of compatible crossing options.
pub open spec fn is_scored<S: FillScorer>(
    scorer: &S,
    word_list: WordList,
    slot_configs: Seq<SlotConfig>,
    slot_options: Seq<Vec<WordId>>,
    s: int,
    word: Word,
    fill_score: i64,
) -> bool {
    exists|counts: Vec<Option<u32>>|
        are_crossing_counts(word_list, slot_configs, slot_options, s, word, counts@)
            && #[trigger] call_ensures(S::fill_score, (scorer, &counts), fill_score)
}

/// The scorer gives the options of a slot these scores.
pub open spec fn are_scored<S: FillScorer>(
    scorer: &S,
    word_list: WordList,
    slot_configs: Seq<SlotConfig>,
    slot_options: Seq<Vec<WordId>>,
    s: int,
    fill_scores: Seq<i64>,
) -> bool {
    let bucket = word_list.words@[slot_configs[s].length as int]@;
    forall|i: int|
        0 <= i < fill_scores.len() ==> is_scored(
            scorer,
            word_list,
            slot_configs,
            slot_options,
            s,
            bucket[slot_options[s]@[i] as int],
            #[trigger] fill_scores[i],
        )
}

/// The options of a slot are sorted by their keys, with the scores that the scorer gives them.
pub open spec fn is_sorted<S: FillScorer>(
    scorer: &S,
    word_list: WordList,
    slot_configs: Seq<SlotConfig>,
    slot_options: Seq<Vec<WordId>>,
    s: int,
    sorted: Seq<WordId>,
) -> bool {
    exists|fill_scores: Seq<i64>| #[trigger]
        sorted_by(
            word_list,
            slot_configs[s].length as int,
            slot_options[s]@,
            fill_scores,
            sorted,
        ) && are_scored(scorer, word_list, slot_configs, slot_options, s, fill_scores)
}

/// Sort the options of a slot by their keys, given the fill score of each. Options with the same key
/// keep their order.
pub fn sort_options(
    word_list: &WordList,
    length: usize,
    options: &Vec<WordId>,
    fill_scores: &Vec<i64>,
) -> (sorted: Vec<WordId>)
    requires
        options_in_list(*word_list, length as int, options@),
        fill_scores@.len() == options@.len(),
    ensures
        sorted_by(*word_list, length as int, options@, fill_scores@, sorted@),
        is_reordering(sorted@, options@),
{
    let mut keys: Vec<i64> = Vec::new();
    let mut i: usize = 0;
    while i < options.len()
        invariant
            options_in_list(*word_list, length as int, options@),
            fill_scores@.len() == options@.len(),
            0 <= i <= options@.len(),
            keys@ == option_keys(*word_list, length as int, options@, fill_scores@).take(i as int),
        decreases options@.len() - i,
    {
        let word: &Word = &word_list.words[length][options[i]];
        keys.push(calculate_option_key(word, fill_scores[i]));
        i = i + 1;
        assert(keys@ =~= option_keys(*word_list, length as int, options@, fill_scores@).take(
            i as int,
        ));
    }
    assert(keys@ =~= option_keys(*word_list, length as int, options@, fill_scores@));
    let order: Vec<usize> = stable_order(&keys);
    let mut sorted: Vec<WordId> = Vec::new();
    let mut k: usize = 0;
    while k < order.len()
        invariant
            is_stable_order(keys@, order@),
            keys@.len() == options@.len(),
            0 <= k <= order@.len(),
            sorted@.len() == k,
            forall|m: int| 0 <= m < k ==> #[trigger] sorted@[m] == options@[order@[m] as int],
        decreases order@.len() - k,
    {
        assert(order@[k as int] < keys@.len());
        sorted.push(options[order[k]]);
        k = k + 1;
    }
    proof {
        lemma_in_order_distinct(keys@, order@);
        assert(is_permutation(order@, options@.len()));
        assert(taken_from(sorted@, options@, order@));
    }
    sorted
}

/// The slots refer to each other's cells.
pub open spec fn is_layout(slot_configs: Seq<SlotConfig>) -> bool {
    forall|s: int|
        0 <= s < slot_configs.len() ==> {
            &&& (#[trigger] slot_configs[s]).id == s
            &&& slot_configs[s].crossings@.len() == slot_configs[s].length
            &&& forall|c: int|
                0 <= c < slot_configs[s].length ==> match #[trigger] slot_configs[s].crossings@[c] {
                    Some(crossing) => crossing.other_slot_id < slot_configs.len()
                        && crossing.other_slot_cell
                        < slot_configs[crossing.other_slot_id as int].length,
                    None => true,
                }
        }
}

/// The options of each slot are words of its length.
pub open spec fn all_options_in_list(
    word_list: WordList,
    slot_configs: Seq<SlotConfig>,
    slot_options: Seq<Vec<WordId>>,
) -> bool {
    &&& slot_options.len() == slot_configs.len()
    &&& forall|s: int|
        0 <= s < slot_configs.len() ==> options_in_list(
            word_list,
            slot_configs[s].length as int,
            #[trigger] slot_options[s]@,
        ) && slot_options[s]@.len() <= u32::MAX
}

/// The number of options of the crossing slot that have the glyph in the square of the crossing.
pub open spec fn crossing_count_of(
    word_list: WordList,
    slot_configs: Seq<SlotConfig>,
    slot_options: Seq<Vec<WordId>>,
    crossing: Crossing,
    glyph: GlyphId,
) -> nat {
    let other = crossing.other_slot_id as int;
    tally(
        slot_options[other]@,
        counted(
            word_list,
            slot_configs[other].length as int,
            all_words(),
            crossing.other_slot_cell as int,
            glyph as int,
        ),
    )
}

/// The counts are those of the letters of a word in a slot.
pub open spec fn are_crossing_counts(
    word_list: WordList,
    slot_configs: Seq<SlotConfig>,
    slot_options: Seq<Vec<WordId>>,
    s: int,
    word: Word,
    counts: Seq<Option<u32>>,
) -> bool {
    &&& counts.len() == slot_configs[s].length
    &&& forall|c: int|
        0 <= c < counts.len() ==> match (
            #[trigger] counts[c],
            slot_configs[s].crossings@[c],
        ) {
            (Some(count), Some(crossing)) => count == crossing_count_of(
                word_list,
                slot_configs,
                slot_options,
                crossing,
                word.glyphs@[c],
            ),
            (None, None) => true,
            _ => false,
        }
}

/// The tables count the glyphs of each slot's options.
spec fn are_counts_by_slot(
    word_list: WordList,
    slot_configs: Seq<SlotConfig>,
    slot_options: Seq<Vec<WordId>>,
    counts_by_slot: Seq<GlyphCountsByCell>,
) -> bool {
    &&& counts_by_slot.len() == slot_configs.len()
    &&& forall|s: int|
        0 <= s < slot_configs.len() ==> counts_match(
            (#[trigger] counts_by_slot[s])@,
            word_list,
            slot_configs[s].length as int,
            slot_options[s]@,
            all_words(),
        )
}

/// Count the glyphs of each slot's options.
fn count_by_slot(
    word_list: &WordList,
    slot_configs: &[SlotConfig],
    slot_options: &Vec<Vec<WordId>>,
) -> (counts_by_slot: Vec<GlyphCountsByCell>)
    requires
        is_layout(slot_configs@),
        all_options_in_list(*word_list, slot_configs@, slot_options@),
    ensures
        are_counts_by_slot(*word_list, slot_configs@, slot_options@, counts_by_slot@),
{
    let mut counts_by_slot: Vec<GlyphCountsByCell> = Vec::new();
    let mut s: usize = 0;
    while s < slot_configs.len()
        invariant
            all_options_in_list(*word_list, slot_configs@, slot_options@),
            0 <= s <= slot_configs@.len(),
            counts_by_slot@.len() == s,
            forall|t: int|
                0 <= t < s ==> counts_match(
                    (#[trigger] counts_by_slot@[t])@,
                    *word_list,
                    slot_configs@[t].length as int,
                    slot_options@[t]@,
                    all_words(),
                ),
        decreases slot_configs@.len() - s,
    {
        assert(options_in_list(
            *word_list,
            slot_configs@[s as int].length as int,
            slot_options@[s as int]@,
        ));
        counts_by_slot.push(
            build_glyph_counts_by_cell(
                word_list,
                slot_configs[s].length,
                slot_options[s].as_slice(),
            ),
        );
        s = s + 1;
    }
    counts_by_slot
}

/// Look up how many crossing options are compatible with each letter of a word.
fn count_crossings(
    word_list: &WordList,
    slot_configs: &[SlotConfig],
    Ghost(slot_options): Ghost<Seq<Vec<WordId>>>,
    counts_by_slot: &Vec<GlyphCountsByCell>,
    s: usize,
    word: &Word,
) -> (counts: Vec<Option<u32>>)
    requires
        is_layout(slot_configs@),
        are_counts_by_slot(*word_list, slot_configs@, slot_options, counts_by_slot@),
        s < slot_configs@.len(),
        word_list.word_wf(slot_configs@[s as int].length as int, *word),
    ensures
        are_crossing_counts(
            *word_list,
            slot_configs@,
            slot_options,
            s as int,
            *word,
            counts@,
        ),
{
    let slot_config: &SlotConfig = &slot_configs[s];
    let mut counts: Vec<Option<u32>> = Vec::new();
    let mut c: usize = 0;
    while c < slot_config.crossings.len()
        invariant
            is_layout(slot_configs@),
            are_counts_by_slot(*word_list, slot_configs@, slot_options, counts_by_slot@),
            s < slot_configs@.len(),
            slot_config == slot_configs@[s as int],
            slot_config.crossings@.len() == slot_config.length,
            word_list.word_wf(slot_config.length as int, *word),
            0 <= c <= slot_config.crossings@.len(),
            counts@.len() == c,
            forall|k: int|
                0 <= k < c ==> match (#[trigger] counts@[k], slot_configs@[s as int].crossings@[k]) {
                    (Some(count), Some(crossing)) => count == crossing_count_of(
                        *word_list,
                        slot_configs@,
                        slot_options,
                        crossing,
                        word.glyphs@[k],
                    ),
                    (None, None) => true,
                    _ => false,
                },
        decreases slot_config.crossings@.len() - c,
    {
        let count: Option<u32> = match &slot_config.crossings[c] {
            Some(crossing) => {
                let other: usize = crossing.other_slot_id;
                let cell: usize = crossing.other_slot_cell;
                let glyph: GlyphId = word.glyphs[c];
                proof {
                    assert(slot_configs@[s as int].crossings@[c as int] == Some(*crossing));
                    let table = counts_by_slot@[other as int]@;
                    assert(counts_match(
                        table,
                        *word_list,
                        slot_configs@[other as int].length as int,
                        slot_options[other as int]@,
                        all_words(),
                    ));
                    assert(cell_counts_match(
                        counts_of(table[cell as int]),
                        *word_list,
                        slot_configs@[other as int].length as int,
                        slot_options[other as int]@,
                        all_words(),
                        cell as int,
                    ));
                }
                Some(counts_get(&counts_by_slot[other][cell], glyph))
            },
            None => None,
        };
        counts.push(count);
        c = c + 1;
    }
    counts
}

/// Given a configured grid, reorder the options for each slot so that the "best" choices are at the
/// front. This is a balance between fillability (the most important factor, since our odds of being
/// able to find a fill in a reasonable amount of time depend on how many tries it takes us to find
/// a usable word for each slot) and quality metrics like word score and letter score.
pub fn sort_slot_options<S: FillScorer>(
    word_list: &WordList,
    slot_configs: &[SlotConfig],
    slot_options: &mut Vec<Vec<WordId>>,
    scorer: &S,
)
    requires
        is_layout(slot_configs@),
        all_options_in_list(*word_list, slot_configs@, old(slot_options)@),
    ensures
        final(slot_options)@.len() == old(slot_options)@.len(),
        forall|s: int|
            0 <= s < old(slot_options)@.len() ==> is_sorted(
                scorer,
                *word_list,
                slot_configs@,
                old(slot_options)@,
                s,
                (#[trigger] final(slot_options)@[s])@,
            ),
        forall|s: int|
            0 <= s < old(slot_options)@.len() ==> is_reordering(
                (#[trigger] final(slot_options)@[s])@,
                old(slot_options)@[s]@,
            ),
{
    // To calculate the fillability score for each word, we need statistics about which letters are
    // most likely to appear in each position for each slot.
    let ghost before = slot_options@;
    let counts_by_slot: Vec<GlyphCountsByCell> = count_by_slot(
        word_list,
        slot_configs,
        slot_options,
    );
    // Now we can actually sort the options.
    let mut s: usize = 0;
    while s < slot_configs.len()
        invariant
            is_layout(slot_configs@),
            all_options_in_list(*word_list, slot_configs@, before),
            are_counts_by_slot(*word_list, slot_configs@, before, counts_by_slot@),
            0 <= s <= slot_configs@.len(),
            slot_options@.len() == before.len(),
            forall|t: int| s <= t < before.len() ==> #[trigger] slot_options@[t] == before[t],
            forall|t: int|
                0 <= t < s ==> is_sorted(
                    scorer,
                    *word_list,
                    slot_configs@,
                    before,
                    t,
                    (#[trigger] slot_options@[t])@,
                ),
            forall|t: int|
                0 <= t < s ==> is_reordering((#[trigger] slot_options@[t])@, before[t]@),
        decreases slot_configs@.len() - s,
    {
        let length: usize = slot_configs[s].length;
        let mut fill_scores: Vec<i64> = Vec::new();
        let mut i: usize = 0;
        assert(options_in_list(*word_list, length as int, before[s as int]@));
        assert(slot_options@[s as int] == before[s as int]);
        while i < slot_options[s].len()
            invariant
                is_layout(slot_configs@),
                are_counts_by_slot(*word_list, slot_configs@, before, counts_by_slot@),
                s < slot_configs@.len(),
                s < slot_options@.len(),
                length == slot_configs@[s as int].length,
                slot_options@[s as int] == before[s as int],
                options_in_list(*word_list, length as int, before[s as int]@),
                0 <= i <= before[s as int]@.len(),
                fill_scores@.len() == i,
                are_scored(
                    scorer,
                    *word_list,
                    slot_configs@,
                    before,
                    s as int,
                    fill_scores@,
                ),
            decreases before[s as int]@.len() - i,
        {
            let word: &Word = &word_list.words[length][slot_options[s][i]];
            let counts: Vec<Option<u32>> = count_crossings(
                word_list,
                slot_configs,
                Ghost(before),
                &counts_by_slot,
                s,
                word,
            );
            let score: i64 = scorer.fill_score(&counts);
            proof {
                assert(call_ensures(S::fill_score, (scorer, &counts), score));
                assert(is_scored(
                    scorer,
                    *word_list,
                    slot_configs@,
                    before,
                    s as int,
                    *word,
                    score,
                ));
            }
            fill_scores.push(score);
            i = i + 1;
        }
        let sorted: Vec<WordId> = sort_options(word_list, length, &slot_options[s], &fill_scores);
        slot_options.set(s, sorted);
        assert(sorted_by(
            *word_list,
            length as int,
            before[s as int]@,
            fill_scores@,
            slot_options@[s as int]@,
        ));
        s = s + 1;
    }
}

/// Sorted options are in the order of their keys, and no better option comes later.
pub proof fn lemma_best_first(
    word_list: WordList,
    length: int,
    options: Seq<WordId>,
    fill_scores: Seq<i64>,
    sorted: Seq<WordId>,
    order: Seq<usize>,
    i: int,
    k: int,
)
    requires
        is_stable_order(option_keys(word_list, length, options, fill_scores), order),
        taken_from(sorted, options, order),
        0 <= i < k < sorted.len(),
    ensures
        option_key(word_list.words@[length]@[sorted[i] as int], fill_scores[order[i] as int])
            <= option_key(
            word_list.words@[length]@[sorted[k] as int],
            fill_scores[order[k] as int],
        ),
{
    let keys = option_keys(word_list, length, options, fill_scores);
    assert(precedes(keys, order[i] as int, order[k] as int));
    assert(order[i] < keys.len() && order[k] < keys.len());
    assert(sorted[i] == options[order[i] as int]);
    assert(sorted[k] == options[order[k] as int]);
}

/// Among words that are equally easy to cross, a higher score means a better key.
pub proof fn lemma_score_matters(better: Word, worse: Word, fill_score: i64)
    requires
        better.letter_score == worse.letter_score,
        better.score >= worse.score,
    ensures
        option_key(better, fill_score) <= option_key(worse, fill_score),
{
}

/// Removing an item takes it out of the tally.
proof fn lemma_tally_remove(items: Seq<WordId>, p: spec_fn(WordId) -> bool, k: int)
    requires
        0 <= k < items.len(),
    ensures
        tally(items, p) == tally(items.remove(k), p) + (if p(items[k]) {
            1nat
        } else {
            0nat
        }),
    decreases items.len(),
{
    let front = items.drop_last();
    if k < items.len() - 1 {
        lemma_tally_remove(front, p, k);
        assert(items.remove(k).drop_last() =~= front.remove(k));
        assert(items.remove(k).last() == items.last());
    } else {
        assert(items.remove(k) =~= front);
    }
}

/// A tally does not depend on the order.
proof fn lemma_tally_reordered(
    new: Seq<WordId>,
    old: Seq<WordId>,
    positions: Seq<usize>,
    p: spec_fn(WordId) -> bool,
)
    requires
        is_permutation(positions, old.len()),
        taken_from(new, old, positions),
        old.len() <= usize::MAX,
    ensures
        tally(new, p) == tally(old, p),
    decreases old.len(),
{
    if old.len() > 0 {
        let last = (old.len() - 1) as usize;
        assert(positions.contains(last));
        let k = positions.index_of(last);
        let fewer = positions.remove(k);
        let front = old.drop_last();
        assert(is_permutation(fewer, front.len())) by {
            assert forall|m: int| 0 <= m < fewer.len() implies #[trigger] fewer[m] < front.len() by {
                let from = if m < k {
                    m
                } else {
                    m + 1
                };
                assert(fewer[m] == positions[from]);
                assert(positions[from] < old.len());
                assert(positions[from] != positions[k]);
            }
            assert forall|q: usize| q < front.len() implies #[trigger] fewer.contains(q) by {
                assert(positions.contains(q));
                let at = positions.index_of(q);
                assert(at != k);
                if at < k {
                    assert(fewer[at] == q);
                } else {
                    assert(fewer[at - 1] == q);
                }
            }
            assert forall|a: int, b: int|
                0 <= a < fewer.len() && 0 <= b < fewer.len() && a != b implies fewer[a]
                != fewer[b] by {
                let from_a = if a < k {
                    a
                } else {
                    a + 1
                };
                let from_b = if b < k {
                    b
                } else {
                    b + 1
                };
                assert(positions[from_a] != positions[from_b]);
            }
        }
        assert(taken_from(new.remove(k), front, fewer)) by {
            assert forall|m: int| 0 <= m < new.remove(k).len() implies #[trigger] new.remove(k)[m]
                == front[fewer[m] as int] by {
                let from = if m < k {
                    m
                } else {
                    m + 1
                };
                assert(new[from] == old[positions[from] as int]);
                assert(fewer[m] == positions[from]);
                assert(fewer[m] < front.len());
            }
        }
        lemma_tally_reordered(new.remove(k), front, fewer, p);
        lemma_tally_remove(new, p, k);
        assert(new[k] == old[positions[k] as int]);
        assert(new[k] == old.last());
    } else {
        assert(new =~= old);
    }
}

/// The scorer always gives the same score for the same counts.
pub open spec fn is_consistent<S: FillScorer>(scorer: &S) -> bool {
    forall|left: Vec<Option<u32>>, right: Vec<Option<u32>>, left_score: i64, right_score: i64|
        left@ == right@ && #[trigger] call_ensures(S::fill_score, (scorer, &left), left_score)
            && #[trigger] call_ensures(S::fill_score, (scorer, &right), right_score) ==> left_score
            == right_score
}

/// The options of each slot are the given ones in another order.
pub open spec fn all_reordered(new: Seq<Vec<WordId>>, old: Seq<Vec<WordId>>) -> bool {
    &&& new.len() == old.len()
    &&& forall|s: int| 0 <= s < old.len() ==> is_reordering((#[trigger] new[s])@, old[s]@)
}

/// The crossing options of a word are as many when the options are in another order.
proof fn lemma_same_counts(
    word_list: WordList,
    slot_configs: Seq<SlotConfig>,
    old: Seq<Vec<WordId>>,
    new: Seq<Vec<WordId>>,
    s: int,
    word: Word,
    left: Seq<Option<u32>>,
    right: Seq<Option<u32>>,
)
    requires
        is_layout(slot_configs),
        old.len() == slot_configs.len(),
        all_reordered(new, old),
        0 <= s < slot_configs.len(),
        are_crossing_counts(word_list, slot_configs, old, s, word, left),
        are_crossing_counts(word_list, slot_configs, new, s, word, right),
    ensures
        left == right,
{
    assert forall|c: int| 0 <= c < left.len() implies left[c] == right[c] by {
        match (left[c], slot_configs[s].crossings@[c]) {
            (Some(_), Some(crossing)) => {
                let other = crossing.other_slot_id as int;
                assert(slot_configs[s].id == s);
                assert(other < old.len());
                assert(is_reordering(new[other]@, old[other]@));
                let positions = choose|positions: Seq<usize>| #[trigger]
                    is_permutation(positions, old[other]@.len()) && taken_from(
                        new[other]@,
                        old[other]@,
                        positions,
                    );
                assert(old[other].len() == old[other]@.len());
                lemma_tally_reordered(
                    new[other]@,
                    old[other]@,
                    positions,
                    counted(
                        word_list,
                        slot_configs[other].length as int,
                        all_words(),
                        crossing.other_slot_cell as int,
                        word.glyphs@[c] as int,
                    ),
                );
                assert(right[c] is Some);
            },
            _ => {
                assert(right[c] is None);
            },
        }
    }
    assert(left =~= right);
}

/// Sorting the options of all slots again changes nothing, if the scorer always gives the same score
/// for the same counts.
pub proof fn lemma_sorting_again<S: FillScorer>(
    scorer: &S,
    word_list: WordList,
    slot_configs: Seq<SlotConfig>,
    slot_options: Seq<Vec<WordId>>,
    sorted: Seq<Vec<WordId>>,
    again: Seq<Vec<WordId>>,
    s: int,
)
    requires
        is_consistent(scorer),
        is_layout(slot_configs),
        slot_options.len() == slot_configs.len(),
        all_reordered(sorted, slot_options),
        0 <= s < slot_configs.len(),
        is_sorted(scorer, word_list, slot_configs, slot_options, s, sorted[s]@),
        is_sorted(scorer, word_list, slot_configs, sorted, s, again[s]@),
    ensures
        again[s]@ == sorted[s]@,
{
    let length = slot_configs[s].length as int;
    let bucket = word_list.words@[length]@;
    let first = choose|scores: Seq<i64>| #[trigger]
        sorted_by(word_list, length, slot_options[s]@, scores, sorted[s]@) && are_scored(
            scorer,
            word_list,
            slot_configs,
            slot_options,
            s,
            scores,
        );
    let second = choose|scores: Seq<i64>| #[trigger]
        sorted_by(word_list, length, sorted[s]@, scores, again[s]@) && are_scored(
            scorer,
            word_list,
            slot_configs,
            sorted,
            s,
            scores,
        );
    let keys = option_keys(word_list, length, slot_options[s]@, first);
    let new_keys = option_keys(word_list, length, sorted[s]@, second);
    let order = choose|order: Seq<usize>| #[trigger]
        is_stable_order(keys, order) && taken_from(sorted[s]@, slot_options[s]@, order);
    let new_order = choose|order: Seq<usize>| #[trigger]
        is_stable_order(new_keys, order) && taken_from(again[s]@, sorted[s]@, order);
    assert forall|i: int| 0 <= i < new_keys.len() implies #[trigger] new_keys[i]
        == keys[order[i] as int] by {
        let at = order[i] as int;
        assert(order[i] < keys.len());
        assert(sorted[s]@[i] == slot_options[s]@[at]);
        let word = bucket[sorted[s]@[i] as int];
        assert(is_scored(scorer, word_list, slot_configs, slot_options, s, word, first[at]));
        assert(is_scored(scorer, word_list, slot_configs, sorted, s, word, second[i]));
        let left = choose|counts: Vec<Option<u32>>|
            are_crossing_counts(word_list, slot_configs, slot_options, s, word, counts@)
                && #[trigger] call_ensures(S::fill_score, (scorer, &counts), first[at]);
        let right = choose|counts: Vec<Option<u32>>|
            are_crossing_counts(word_list, slot_configs, sorted, s, word, counts@)
                && #[trigger] call_ensures(S::fill_score, (scorer, &counts), second[i]);
        lemma_same_counts(
            word_list,
            slot_configs,
            slot_options,
            sorted,
            s,
            word,
            left@,
            right@,
        );
        assert(first[at] == second[i]);
    }
    let n = sorted[s]@.len();
    let identity = Seq::new(n, |i: int| i as usize);
    assert(sorted[s].len() == n);
    assert(is_stable_order(new_keys, identity)) by {
        assert forall|a: int, b: int| 0 <= a < b < identity.len() implies #[trigger] precedes(
            new_keys,
            identity[a] as int,
            identity[b] as int,
        ) by {
            assert(precedes(keys, order[a] as int, order[b] as int));
            assert(new_keys[a] == keys[order[a] as int]);
            assert(new_keys[b] == keys[order[b] as int]);
        }
        assert forall|p: usize| p < new_keys.len() implies #[trigger] identity.contains(p) by {
            assert(identity[p as int] == p);
        }
    }
    lemma_stable_order_unique(new_keys, identity, new_order);
    assert forall|k: int| 0 <= k < n implies again[s]@[k] == sorted[s]@[k] by {
        assert(again[s]@[k] == sorted[s]@[new_order[k] as int]);
        assert(identity[k] == k as usize);
    }
    assert(again[s]@ =~= sorted[s]@);
}

/// A point of a word's score counts as much as a point of its letter score, and as much as five points
/// of its fill score. The word with the higher sum has the better key. (The sums are so far from the
/// limits of numbers that they can be represented.)
pub proof fn lemma_key_weights(left: Word, left_fill: i64, right: Word, right_fill: i64)
    requires
        -0x4000_0000_0000_0000 <= left_fill <= 0x4000_0000_0000_0000,
        -0x4000_0000_0000_0000 <= right_fill <= 0x4000_0000_0000_0000,
    ensures
        (option_key(left, left_fill) < option_key(right, right_fill)) == (left_fill + 5
            * left.letter_score + 5 * left.score > right_fill + 5 * right.letter_score + 5
            * right.score),
{
}

/// An option that comes before another one has a sum of scores that is at least as high, counting the
/// letter score and the word score five times. Options with the same sum are in the order that they
/// had.
pub proof fn lemma_higher_sum_first(
    word_list: WordList,
    length: int,
    options: Seq<WordId>,
    fill_scores: Seq<i64>,
    sorted: Seq<WordId>,
) -> (order: Seq<usize>)
    requires
        sorted_by(word_list, length, options, fill_scores, sorted),
        forall|i: int|
            0 <= i < fill_scores.len() ==> -0x4000_0000_0000_0000 <= #[trigger] fill_scores[i]
                <= 0x4000_0000_0000_0000,
    ensures
        order.len() == options.len(),
        order.len() == sorted.len(),
        order.no_duplicates(),
        forall|k: int|
            0 <= k < order.len() ==> #[trigger] order[k] < options.len() && sorted[k]
                == options[order[k] as int],
        forall|i: int, k: int|
            0 <= i < k < sorted.len() ==> {
                let left = word_list.words@[length]@[#[trigger] sorted[i] as int];
                let right = word_list.words@[length]@[#[trigger] sorted[k] as int];
                let left_sum = fill_scores[order[i] as int] + 5 * left.letter_score + 5
                    * left.score;
                let right_sum = fill_scores[order[k] as int] + 5 * right.letter_score + 5
                    * right.score;
                left_sum > right_sum || (left_sum == right_sum && order[i] < order[k])
            },
{
    let keys = option_keys(word_list, length, options, fill_scores);
    let order = choose|order: Seq<usize>| #[trigger]
        is_stable_order(keys, order) && taken_from(sorted, options, order);
    lemma_in_order_distinct(keys, order);
    assert forall|i: int, k: int| 0 <= i < k < sorted.len() implies {
        let left = word_list.words@[length]@[#[trigger] sorted[i] as int];
        let right = word_list.words@[length]@[#[trigger] sorted[k] as int];
        let left_sum = fill_scores[order[i] as int] + 5 * left.letter_score + 5 * left.score;
        let right_sum = fill_scores[order[k] as int] + 5 * right.letter_score + 5 * right.score;
        left_sum > right_sum || (left_sum == right_sum && order[i] < order[k])
    } by {
        assert(precedes(keys, order[i] as int, order[k] as int));
        assert(order[i] < keys.len() && order[k] < keys.len());
        let left = word_list.words@[length]@[sorted[i] as int];
        let right = word_list.words@[length]@[sorted[k] as int];
        lemma_key_weights(
            left,
            fill_scores[order[i] as int],
            right,
            fill_scores[order[k] as int],
        );
        lemma_key_weights(
            right,
            fill_scores[order[k] as int],
            left,
            fill_scores[order[i] as int],
        );
    }
    order
}

/// What a word is scored by is, for each of its letters where there is a crossing, how many options of
/// the crossing slot have that letter in the cell where the slots cross.
pub proof fn lemma_crossing_options_counted(
    word_list: WordList,
    slot_configs: Seq<SlotConfig>,
    slot_options: Seq<Vec<WordId>>,
    s: int,
    word: Word,
    counts: Seq<Option<u32>>,
    c: int,
)
    requires
        are_crossing_counts(word_list, slot_configs, slot_options, s, word, counts),
        0 <= c < slot_configs[s].length,
    ensures
        counts.len() == slot_configs[s].length,
        counts[c] is Some == slot_configs[s].crossings@[c] is Some,
        slot_configs[s].crossings@[c] matches Some(crossing) ==> {
            let other = crossing.other_slot_id as int;
            let bucket = word_list.words@[slot_configs[other].length as int]@;
            counts[c] matches Some(count) && count == slot_options[other]@.filter(
                |w: WordId|
                    bucket[w as int].glyphs@[crossing.other_slot_cell as int] == word.glyphs@[c],
            ).len()
        },
{
    assert(counts[c] is Some == slot_configs[s].crossings@[c] is Some);
    if let Some(crossing) = slot_configs[s].crossings@[c] {
        let other = crossing.other_slot_id as int;
        let bucket = word_list.words@[slot_configs[other].length as int]@;
        let has_letter = |w: WordId|
            bucket[w as int].glyphs@[crossing.other_slot_cell as int] == word.glyphs@[c];
        let p = counted(
            word_list,
            slot_configs[other].length as int,
            all_words(),
            crossing.other_slot_cell as int,
            word.glyphs@[c] as int,
        );
        assert forall|w: WordId| #[trigger] p(w) == has_letter(w) by {}
        lemma_tally_same(slot_options[other]@, p, has_letter);
        lemma_tally_filter(slot_options[other]@, has_letter);
    }
}

} // verus!
