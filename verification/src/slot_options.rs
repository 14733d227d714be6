//! Working out which words each slot may be filled with.

use crate::grid_config::{collect_fill, is_complete, SlotConfig};
use crate::pattern::{check_pattern, pattern_text, refers_outward};
use crate::text::text_of;
use crate::types::{GlobalWordId, GlyphId, WordId};
use crate::word_list::{lemma_spelling_extends, lemma_spelling_injective, Word, WordList};
use fancy_regex::Regex;
use std::collections::HashSet;
use vstd::prelude::*;

verus! {

broadcast use vstd::std_specs::hash::group_hash_axioms;

/// Whether a regular expression matches a text, if that could be found out.
pub uninterp spec fn regex_outcome(pattern: Regex, text: Seq<char>) -> Option<bool>;

/// Calls `Regex::is_match`, which looks for a match of the pattern anywhere in the text. Claimed is
/// only that the outcome depends on nothing but the pattern and the text. It is `None` where the
/// call fails, as it does when the pattern needs too much backtracking. A pattern with a
/// backreference inside the group that it names is left out, because the call may panic on it.
#[verifier::external_body]
fn match_regex(pattern: &Regex, text: &str) -> (outcome: Option<bool>)
    requires
        refers_outward(pattern_text(*pattern)),
    ensures
        outcome == regex_outcome(*pattern, text@),
{
    pattern.is_match(text).ok()
}

/// Every cell that is populated has the glyph of the word.
pub open spec fn agrees_with_fill(entry_fill: Seq<Option<GlyphId>>, glyphs: Seq<GlyphId>) -> bool {
    forall|c: int|
        0 <= c < entry_fill.len() ==> match #[trigger] entry_fill[c] {
            Some(glyph) => glyph == glyphs[c],
            None => true,
        }
}

/// The word may be used for an entry: it agrees with what is in the cells, and unless it is
/// explicitly allowed, it is not hidden, scores high enough and is not turned down by the filter
/// pattern.
pub open spec fn is_acceptable(
    word: Word,
    entry_fill: Seq<Option<GlyphId>>,
    min_score: u16,
    matched: Option<bool>,
    allowed: bool,
) -> bool {
    &&& allowed || (!word.hidden && word.score >= min_score && matched != Some(false))
    &&& agrees_with_fill(entry_fill, word.glyphs@)
}

/// Decide whether a word may be used for an entry, given whether it matches the filter pattern (if
/// there is one) and whether it is explicitly allowed.
pub fn accepts_word(
    word: &Word,
    entry_fill: &[Option<GlyphId>],
    min_score: u16,
    matched: Option<bool>,
    allowed: bool,
) -> (result: bool)
    requires
        word.glyphs@.len() == entry_fill@.len(),
    ensures
        result == is_acceptable(*word, entry_fill@, min_score, matched, allowed),
{
    if !allowed {
        if word.hidden || word.score < min_score {
            return false;
        }
        if let Some(matched) = matched {
            if !matched {
                return false;
            }
        }
    }
    let mut cell_idx: usize = 0;
    while cell_idx < entry_fill.len()
        invariant
            word.glyphs@.len() == entry_fill@.len(),
            0 <= cell_idx <= entry_fill@.len(),
            forall|c: int|
                0 <= c < cell_idx ==> match #[trigger] entry_fill@[c] {
                    Some(glyph) => glyph == word.glyphs@[c],
                    None => true,
                },
        decreases entry_fill@.len() - cell_idx,
    {
        if let Some(glyph) = entry_fill[cell_idx] {
            if glyph != word.glyphs[cell_idx] {
                assert(entry_fill@[cell_idx as int] == Some(glyph));
                return false;
            }
        }
        cell_idx = cell_idx + 1;
    }
    true
}

/// What a filter pattern says of a word. A failure counts as no match.
pub open spec fn filter_outcome(filter_pattern: Option<Regex>, text: Seq<char>) -> Option<bool> {
    match filter_pattern {
        Some(pattern) => Some(regex_outcome(pattern, text) == Some(true)),
        None => None,
    }
}

/// The word with this id may be used for an entry.
pub open spec fn is_option(
    word_list: WordList,
    entry_fill: Seq<Option<GlyphId>>,
    min_score: u16,
    filter_pattern: Option<Regex>,
    allowed_word_ids: Set<WordId>,
    word_id: WordId,
) -> bool {
    let bucket = word_list.words@[entry_fill.len() as int]@;
    word_id < bucket.len() && is_acceptable(
        bucket[word_id as int],
        entry_fill,
        min_score,
        filter_outcome(filter_pattern, bucket[word_id as int].normalized_string@),
        allowed_word_ids.contains(word_id),
    )
}

/// A cell of the entry is not populated.
pub open spec fn has_gap(entry_fill: Seq<Option<GlyphId>>) -> bool {
    exists|c: int| 0 <= c < entry_fill.len() && (#[trigger] entry_fill[c]) is None
}

/// The options are right for an entry: if it has a gap, the words that may be used, in the order of
/// their ids; if not, the one word that is in the cells.
pub open spec fn are_options(
    word_list: WordList,
    entry_fill: Seq<Option<GlyphId>>,
    min_score: u16,
    filter_pattern: Option<Regex>,
    allowed_word_ids: Set<WordId>,
    options: Seq<WordId>,
) -> bool {
    &&& entry_fill.len() < word_list.words@.len()
    &&& if has_gap(entry_fill) {
        &&& forall|i: int, k: int| 0 <= i < k < options.len() ==> options[i] < options[k]
        &&& forall|word_id: WordId| #[trigger]
            options.contains(word_id) <==> is_option(
                word_list,
                entry_fill,
                min_score,
                filter_pattern,
                allowed_word_ids,
                word_id,
            )
    } else {
        let bucket = word_list.words@[entry_fill.len() as int]@;
        &&& options.len() == 1
        &&& options[0] < bucket.len()
        &&& is_complete(entry_fill, bucket[options[0] as int].glyphs@)
    }
}

/// The list has the words of `earlier` under the same ids, and the others are hidden.
pub open spec fn adds_hidden(word_list: WordList, earlier: WordList) -> bool {
    &&& word_list.extends(&earlier)
    &&& forall|id: GlobalWordId| #[trigger]
        earlier.has_word(id) ==> word_list.word(id) == earlier.word(id)
    &&& forall|id: GlobalWordId| #[trigger]
        word_list.has_word(id) && !earlier.has_word(id) ==> word_list.word(id).hidden
}

/// A filter pattern can be matched, if there is one.
pub open spec fn is_matchable(filter_pattern: Option<Regex>) -> bool {
    filter_pattern matches Some(pattern) ==> refers_outward(pattern_text(pattern))
}

/// The pattern behind an optional reference.
pub open spec fn referenced(filter_pattern: Option<&Regex>) -> Option<Regex> {
    match filter_pattern {
        Some(pattern) => Some(*pattern),
        None => None,
    }
}

/// The glyphs in the cells of an entry without a gap.
pub open spec fn glyphs_in(entry_fill: Seq<Option<GlyphId>>) -> Seq<GlyphId> {
    entry_fill.map_values(|glyph: Option<GlyphId>| glyph->0)
}

/// The list is as `earlier`, with the word in the cells of an entry without a gap added if it wasn't
/// known. A word that is added is hidden.
pub open spec fn adds_entry(
    word_list: WordList,
    earlier: WordList,
    entry_fill: Seq<Option<GlyphId>>,
    word_id: WordId,
) -> bool {
    let id = (entry_fill.len() as usize, word_id);
    let text = earlier.spelling(glyphs_in(entry_fill));
    &&& word_list.glyphs@ == earlier.glyphs@
    &&& earlier.knows(text) ==> earlier.has_word(id) && word_list.same_words(&earlier)
        && word_list.dupe_index.model() == earlier.dupe_index.model()
    &&& !earlier.knows(text) ==> {
        &&& !earlier.has_word(id)
        &&& word_list.adds_only(&earlier, id)
        &&& word_list.text(id) == text
        &&& word_list.word(id).hidden
        &&& word_list.word(id).score == 0
        &&& word_list.word(id).letter_score == 0
        &&& word_list.dupe_index.model() == earlier.dupe_index.model().with_word(
            id,
            glyphs_in(entry_fill),
        )
    }
}

/// The words that an optional set allows.
pub open spec fn allowed_set(allowed_word_ids: Option<&HashSet<WordId>>) -> Set<WordId> {
    match allowed_word_ids {
        Some(ids) => ids@,
        None => Set::empty(),
    }
}

/// The glyphs in the cells are known.
pub open spec fn fill_known(word_list: WordList, entry_fill: Seq<Option<GlyphId>>) -> bool {
    forall|c: int|
        0 <= c < entry_fill.len() ==> match #[trigger] entry_fill[c] {
            Some(glyph) => glyph < word_list.glyphs@.len(),
            None => true,
        }
}

/// The text that glyphs spell.
fn spell(word_list: &WordList, glyphs: &Vec<GlyphId>) -> (text: String)
    requires
        forall|c: int| 0 <= c < glyphs@.len() ==> #[trigger] glyphs@[c] < word_list.glyphs@.len(),
    ensures
        text@ == word_list.spelling(glyphs@),
{
    let mut chars: Vec<char> = Vec::new();
    let mut i: usize = 0;
    while i < glyphs.len()
        invariant
            forall|c: int|
                0 <= c < glyphs@.len() ==> #[trigger] glyphs@[c] < word_list.glyphs@.len(),
            0 <= i <= glyphs@.len(),
            chars@ == word_list.spelling(glyphs@).take(i as int),
        decreases glyphs@.len() - i,
    {
        chars.push(word_list.glyphs[glyphs[i]]);
        i = i + 1;
        assert(chars@ =~= word_list.spelling(glyphs@).take(i as int));
    }
    assert(chars@ =~= word_list.spelling(glyphs@));
    text_of(chars.as_slice())
}

/// Given a single slot's fill, minimum score, and optional filter pattern, generate the possible
/// options for that slot by starting with the complete word list and then removing words that
/// contradict the criteria. If `allowed_word_ids` is provided, the given words will be among the
/// options as long as they don't contradict the fill, regardless of whether they match the min
/// score and filter pattern.
pub fn generate_slot_options(
    word_list: &mut WordList,
    entry_fill: &[Option<GlyphId>],
    min_score: u16,
    filter_pattern: Option<&Regex>,
    allowed_word_ids: Option<&HashSet<WordId>>,
) -> (options: Vec<WordId>)
    requires
        old(word_list).wf(),
        has_gap(entry_fill@) ==> entry_fill@.len() < old(word_list).words@.len(),
        !has_gap(entry_fill@) ==> fill_known(*old(word_list), entry_fill@),
        has_gap(entry_fill@) ==> is_matchable(referenced(filter_pattern)),
    ensures
        final(word_list).wf(),
        adds_hidden(*final(word_list), *old(word_list)),
        has_gap(entry_fill@) ==> *final(word_list) == *old(word_list),
        !has_gap(entry_fill@) ==> adds_entry(
            *final(word_list),
            *old(word_list),
            entry_fill@,
            options@[0],
        ),
        are_options(
            *final(word_list),
            entry_fill@,
            min_score,
            referenced(filter_pattern),
            allowed_set(allowed_word_ids),
            options@,
        ),
{
    let ghost pattern: Option<Regex> = referenced(filter_pattern);
    let ghost allowed_words = allowed_set(allowed_word_ids);
    // If the slot is fully specified, we need to either use an existing word or create a new
    // (hidden) one.
    if let Some(complete_fill) = collect_fill(entry_fill) {
        proof {
            assert(!has_gap(entry_fill@)) by {
                if has_gap(entry_fill@) {
                    let c = choose|c: int|
                        0 <= c < entry_fill@.len() && (#[trigger] entry_fill@[c]) is None;
                    assert(entry_fill@[c] == Some(complete_fill@[c]));
                }
            }
            assert forall|c: int| 0 <= c < complete_fill@.len() implies #[trigger] complete_fill@[c]
                < word_list.glyphs@.len() by {
                assert(entry_fill@[c] == Some(complete_fill@[c]));
            }
        }
        let word_string: String = spell(word_list, &complete_fill);
        let ghost before = *word_list;
        let (word_length, word_id): GlobalWordId = word_list.get_word_id_or_add_hidden(
            word_string.as_str(),
        );
        proof {
            let id = (word_length, word_id);
            let word = word_list.word(id);
            assert(before.spelling(complete_fill@).len() == complete_fill@.len());
            assert(word_list.bucket_wf(
                word_length as int,
                word_list.words@[word_length as int]@,
            ));
            assert(word_list.word_wf(word_length as int, word));
            lemma_spelling_extends(before, *word_list, complete_fill@);
            assert forall|c: int| 0 <= c < complete_fill@.len() implies #[trigger] complete_fill@[c]
                < word_list.glyphs@.len() by {}
            lemma_spelling_injective(*word_list, word.glyphs@, complete_fill@);
            assert(complete_fill@ =~= glyphs_in(entry_fill@));
            let text = word_string@;
            assert forall|c: int| 0 <= c < text.len() implies before.glyphs@.contains(
                #[trigger] text[c],
            ) by {
                assert(text[c] == before.glyphs@[complete_fill@[c] as int]);
            }
            assert(before.knows(text) ==> before.has_word(id));
        }
        let mut options: Vec<WordId> = Vec::new();
        options.push(word_id);
        return options;
    }
    let length: usize = entry_fill.len();
    assert(word_list.bucket_wf(length as int, word_list.words@[length as int]@));
    let mut options: Vec<WordId> = Vec::new();
    let mut word_id: usize = 0;
    while word_id < word_list.words[length].len()
        invariant
            *word_list == *old(word_list),
            word_list.wf(),
            has_gap(entry_fill@),
            length == entry_fill@.len(),
            length < word_list.words@.len(),
            word_list.bucket_wf(length as int, word_list.words@[length as int]@),
            pattern == referenced(filter_pattern),
            is_matchable(pattern),
            allowed_words == allowed_set(allowed_word_ids),
            0 <= word_id <= word_list.words@[length as int]@.len(),
            forall|i: int| 0 <= i < options@.len() ==> #[trigger] options@[i] < word_id,
            forall|i: int, k: int| 0 <= i < k < options@.len() ==> options@[i] < options@[k],
            forall|w: WordId| #[trigger]
                options@.contains(w) <==> w < word_id && is_option(
                    *word_list,
                    entry_fill@,
                    min_score,
                    pattern,
                    allowed_words,
                    w,
                ),
        decreases word_list.words@[length as int]@.len() - word_id,
    {
        let word: &Word = &word_list.words[length][word_id];
        assert(word_list.word_wf(length as int, *word));
        let allowed: bool = match allowed_word_ids {
            Some(ids) => ids.contains(&word_id),
            None => false,
        };
        // The pattern is only needed for words that have to meet the criteria and are otherwise good
        // enough.
        let matched: Option<bool> = if allowed || word.hidden || word.score < min_score {
            None
        } else {
            match filter_pattern {
                Some(pattern) => match match_regex(pattern, word.normalized_string.as_str()) {
                    Some(matched) => Some(matched),
                    None => Some(false),
                },
                None => None,
            }
        };
        let ghost before = options@;
        if accepts_word(word, entry_fill, min_score, matched, allowed) {
            options.push(word_id);
        }
        proof {
            assert forall|w: WordId| #[trigger] options@.contains(w) <==> w < word_id + 1
                && is_option(
                *word_list,
                entry_fill@,
                min_score,
                pattern,
                allowed_words,
                w,
            ) by {
                if before.contains(w) {
                    assert(options@[before.index_of(w)] == w);
                }
                if options@.contains(w) && w != word_id {
                    assert(before[options@.index_of(w)] == w);
                }
                if w == word_id && options@.len() > before.len() {
                    assert(options@[before.len() as int] == w);
                }
                if w == word_id && options@.contains(w) && options@.len() == before.len() {
                    assert(before[options@.index_of(w)] < word_id);
                }
            }
        }
        word_id = word_id + 1;
    }
    options
}

/// Does an entry need its filter pattern without being able to match it?
fn lacks_pattern(entry_fill: &[Option<GlyphId>], filter_pattern: Option<&Regex>) -> (result: bool)
    ensures
        result == (has_gap(entry_fill@) && !is_matchable(referenced(filter_pattern))),
{
    match (collect_fill(entry_fill), filter_pattern) {
        (None, Some(pattern)) => !check_pattern(pattern),
        (None, None) => false,
        (Some(complete_fill), _) => {
            proof {
                if has_gap(entry_fill@) {
                    let c = choose|c: int|
                        0 <= c < entry_fill@.len() && (#[trigger] entry_fill@[c]) is None;
                    assert(entry_fill@[c] == Some(complete_fill@[c]));
                }
            }
            false
        },
    }
}

/// Generate the possible options for a slot as `generate_slot_options` does, after making sure that
/// the filter pattern can be matched if it is needed. Nothing happens if it cannot.
pub fn generate_checked_slot_options(
    word_list: &mut WordList,
    entry_fill: &[Option<GlyphId>],
    min_score: u16,
    filter_pattern: Option<&Regex>,
    allowed_word_ids: Option<&HashSet<WordId>>,
) -> (options: Option<Vec<WordId>>)
    requires
        old(word_list).wf(),
        has_gap(entry_fill@) ==> entry_fill@.len() < old(word_list).words@.len(),
        !has_gap(entry_fill@) ==> fill_known(*old(word_list), entry_fill@),
    ensures
        final(word_list).wf(),
        options is Some == (has_gap(entry_fill@) ==> is_matchable(referenced(filter_pattern))),
        options is None || has_gap(entry_fill@) ==> *final(word_list) == *old(word_list),
        options matches Some(options) ==> {
            &&& adds_hidden(*final(word_list), *old(word_list))
            &&& !has_gap(entry_fill@) ==> adds_entry(
                *final(word_list),
                *old(word_list),
                entry_fill@,
                options@[0],
            )
            &&& are_options(
                *final(word_list),
                entry_fill@,
                min_score,
                referenced(filter_pattern),
                allowed_set(allowed_word_ids),
                options@,
            )
        },
{
    if lacks_pattern(entry_fill, filter_pattern) {
        return None;
    }
    Some(generate_slot_options(word_list, entry_fill, min_score, filter_pattern, allowed_word_ids))
}

/// Adding hidden words twice is adding hidden words.
pub proof fn lemma_adds_hidden_again(first: WordList, second: WordList, third: WordList)
    requires
        adds_hidden(second, first),
        adds_hidden(third, second),
    ensures
        adds_hidden(third, first),
{
    assert forall|id: GlobalWordId| #[trigger] first.has_word(id) implies third.has_word(id)
        && third.word(id) == first.word(id) by {
        assert(second.has_word(id));
    }
    assert forall|id: GlobalWordId| #[trigger]
        third.has_word(id) && !first.has_word(id) implies third.word(id).hidden by {
        if second.has_word(id) {
            assert(second.word(id).hidden);
        }
    }
}

/// Hidden words change nothing about the options of an entry.
pub proof fn lemma_options_stay(
    earlier: WordList,
    later: WordList,
    entry_fill: Seq<Option<GlyphId>>,
    min_score: u16,
    filter_pattern: Option<Regex>,
    options: Seq<WordId>,
)
    requires
        adds_hidden(later, earlier),
        are_options(earlier, entry_fill, min_score, filter_pattern, Set::empty(), options),
    ensures
        are_options(later, entry_fill, min_score, filter_pattern, Set::empty(), options),
{
    let length = entry_fill.len() as int;
    earlier.lemma_length_fits(length);
    if has_gap(entry_fill) {
        assert forall|word_id: WordId| #[trigger]
            options.contains(word_id) <==> is_option(
            later,
            entry_fill,
            min_score,
            filter_pattern,
            Set::empty(),
            word_id,
        ) by {
            let id = (length as usize, word_id);
            assert(earlier.has_word(id) ==> later.has_word(id));
            assert(earlier.has_word(id) == (word_id < earlier.words@[length]@.len()));
            assert(later.has_word(id) == (word_id < later.words@[length]@.len()));
            assert(options.contains(word_id) <==> is_option(
                earlier,
                entry_fill,
                min_score,
                filter_pattern,
                Set::empty(),
                word_id,
            ));
        }
    } else {
        assert(earlier.has_word((length as usize, options[0])));
        assert(later.has_word((length as usize, options[0])));
    }
}

/// The minimum score for a slot.
pub open spec fn slot_min_score(slot_config: SlotConfig, global_min_score: u16) -> u16 {
    match slot_config.min_score_override {
        Some(min_score) => min_score,
        None => global_min_score,
    }
}

/// The options are right for a slot.
pub open spec fn are_slot_options(
    word_list: WordList,
    fill: Seq<Option<GlyphId>>,
    slot_config: SlotConfig,
    grid_width: int,
    global_min_score: u16,
    options: Seq<WordId>,
) -> bool {
    are_options(
        word_list,
        slot_config.fill_values(fill, grid_width),
        slot_min_score(slot_config, global_min_score),
        slot_config.filter_pattern,
        Set::empty(),
        options,
    )
}

/// Every word that is new in the list is the entry of a slot that is populated completely.
pub open spec fn adds_entries(
    word_list: WordList,
    earlier: WordList,
    fill: Seq<Option<GlyphId>>,
    slot_configs: Seq<SlotConfig>,
    grid_width: int,
    slot_options: Seq<Vec<WordId>>,
) -> bool {
    &&& word_list.glyphs@ == earlier.glyphs@
    &&& forall|id: GlobalWordId| #[trigger]
        word_list.has_word(id) && !earlier.has_word(id) ==> {
            &&& word_list.word(id).score == 0
            &&& word_list.word(id).letter_score == 0
            &&& exists|s: int|
                0 <= s < slot_options.len() && !has_gap(slot_configs[s].fill_values(fill, grid_width))
                    && id == (slot_configs[s].length, (#[trigger] slot_options[s])@[0])
        }
}

/// Given an input fill and an array of slot configs, generate the possible options for each slot
/// by starting with the complete word list and then removing words that contradict any fill that's
/// already present in the grid or violate criteria like minimum score or filter pattern.
pub fn generate_all_slot_options(
    word_list: &mut WordList,
    fill: &[Option<GlyphId>],
    slot_configs: &[SlotConfig],
    grid_width: usize,
    global_min_score: u16,
) -> (slot_options: Vec<Vec<WordId>>)
    requires
        old(word_list).wf(),
        fill_known(*old(word_list), fill@),
        forall|s: int|
            0 <= s < slot_configs@.len() ==> (#[trigger] slot_configs@[s]).fits(
                fill@.len() as int,
                grid_width as int,
            ),
        forall|s: int|
            0 <= s < slot_configs@.len() && has_gap(
                slot_configs@[s].fill_values(fill@, grid_width as int),
            ) ==> (#[trigger] slot_configs@[s]).length < old(word_list).words@.len(),
        forall|s: int|
            0 <= s < slot_configs@.len() && has_gap(
                slot_configs@[s].fill_values(fill@, grid_width as int),
            ) ==> is_matchable((#[trigger] slot_configs@[s]).filter_pattern),
    ensures
        final(word_list).wf(),
        adds_hidden(*final(word_list), *old(word_list)),
        adds_entries(
            *final(word_list),
            *old(word_list),
            fill@,
            slot_configs@,
            grid_width as int,
            slot_options@,
        ),
        slot_options@.len() == slot_configs@.len(),
        forall|s: int|
            0 <= s < slot_configs@.len() ==> are_slot_options(
                *final(word_list),
                fill@,
                slot_configs@[s],
                grid_width as int,
                global_min_score,
                #[trigger] slot_options@[s]@,
            ),
{
    let mut slot_options: Vec<Vec<WordId>> = Vec::new();
    let mut slot_id: usize = 0;
    while slot_id < slot_configs.len()
        invariant
            word_list.wf(),
            adds_hidden(*word_list, *old(word_list)),
            fill_known(*old(word_list), fill@),
            forall|s: int|
                0 <= s < slot_configs@.len() ==> (#[trigger] slot_configs@[s]).fits(
                    fill@.len() as int,
                    grid_width as int,
                ),
            forall|s: int|
                0 <= s < slot_configs@.len() && has_gap(
                    slot_configs@[s].fill_values(fill@, grid_width as int),
                ) ==> (#[trigger] slot_configs@[s]).length < old(word_list).words@.len(),
            forall|s: int|
                0 <= s < slot_configs@.len() && has_gap(
                    slot_configs@[s].fill_values(fill@, grid_width as int),
                ) ==> is_matchable((#[trigger] slot_configs@[s]).filter_pattern),
            adds_entries(
                *word_list,
                *old(word_list),
                fill@,
                slot_configs@,
                grid_width as int,
                slot_options@,
            ),
            0 <= slot_id <= slot_configs@.len(),
            slot_options@.len() == slot_id,
            forall|s: int|
                0 <= s < slot_id ==> are_slot_options(
                    *word_list,
                    fill@,
                    slot_configs@[s],
                    grid_width as int,
                    global_min_score,
                    #[trigger] slot_options@[s]@,
                ),
        decreases slot_configs@.len() - slot_id,
    {
        let slot: &SlotConfig = &slot_configs[slot_id];
        let ghost before = *word_list;
        let entry_fill: Vec<Option<GlyphId>> = slot.fill(fill, grid_width);
        let min_score: u16 = match slot.min_score_override {
            Some(min_score) => min_score,
            None => global_min_score,
        };
        proof {
            assert forall|c: int| 0 <= c < entry_fill@.len() implies match #[trigger] entry_fill@[c] {
                Some(glyph) => glyph < word_list.glyphs@.len(),
                None => true,
            } by {
                let index = slot.fill_index(c, grid_width as int);
                assert(entry_fill@[c] == fill@[index]);
            }
        }
        let options: Vec<WordId> = generate_slot_options(
            word_list,
            entry_fill.as_slice(),
            min_score,
            slot.filter_pattern.as_ref(),
            None,
        );
        proof {
            lemma_adds_hidden_again(*old(word_list), before, *word_list);
            assert forall|s: int| 0 <= s < slot_id implies are_slot_options(
                *word_list,
                fill@,
                slot_configs@[s],
                grid_width as int,
                global_min_score,
                #[trigger] slot_options@[s]@,
            ) by {
                lemma_options_stay(
                    before,
                    *word_list,
                    slot_configs@[s].fill_values(fill@, grid_width as int),
                    slot_min_score(slot_configs@[s], global_min_score),
                    slot_configs@[s].filter_pattern,
                    slot_options@[s]@,
                );
            }
        }
        let ghost earlier = slot_options@;
        slot_options.push(options);
        proof {
            assert forall|id: GlobalWordId| #[trigger]
                word_list.has_word(id) && !old(word_list).has_word(id) implies {
                &&& word_list.word(id).score == 0
                &&& word_list.word(id).letter_score == 0
                &&& exists|s: int|
                    0 <= s < slot_options@.len() && !has_gap(
                        slot_configs@[s].fill_values(fill@, grid_width as int),
                    ) && id == (slot_configs@[s].length, (#[trigger] slot_options@[s])@[0])
            } by {
                if before.has_word(id) {
                    let s = choose|s: int|
                        0 <= s < earlier.len() && !has_gap(
                            slot_configs@[s].fill_values(fill@, grid_width as int),
                        ) && id == (slot_configs@[s].length, (#[trigger] earlier[s])@[0]);
                    assert(slot_options@[s] == earlier[s]);
                } else {
                    assert(slot_options@[slot_id as int] == options);
                }
            }
        }
        slot_id = slot_id + 1;
    }
    slot_options
}

/// Generate the possible options for each slot as `generate_all_slot_options` does, after making sure
/// that all filter patterns that are needed can be matched. Nothing happens if one of them cannot.
pub fn generate_all_checked_slot_options(
    word_list: &mut WordList,
    fill: &[Option<GlyphId>],
    slot_configs: &[SlotConfig],
    grid_width: usize,
    global_min_score: u16,
) -> (slot_options: Option<Vec<Vec<WordId>>>)
    requires
        old(word_list).wf(),
        fill_known(*old(word_list), fill@),
        forall|s: int|
            0 <= s < slot_configs@.len() ==> (#[trigger] slot_configs@[s]).fits(
                fill@.len() as int,
                grid_width as int,
            ),
        forall|s: int|
            0 <= s < slot_configs@.len() && has_gap(
                slot_configs@[s].fill_values(fill@, grid_width as int),
            ) ==> (#[trigger] slot_configs@[s]).length < old(word_list).words@.len(),
    ensures
        final(word_list).wf(),
        slot_options is Some == forall|s: int|
            0 <= s < slot_configs@.len() && has_gap(
                slot_configs@[s].fill_values(fill@, grid_width as int),
            ) ==> is_matchable((#[trigger] slot_configs@[s]).filter_pattern),
        slot_options is None ==> *final(word_list) == *old(word_list),
        slot_options matches Some(slot_options) ==> {
            &&& adds_hidden(*final(word_list), *old(word_list))
            &&& adds_entries(
                *final(word_list),
                *old(word_list),
                fill@,
                slot_configs@,
                grid_width as int,
                slot_options@,
            )
            &&& slot_options@.len() == slot_configs@.len()
            &&& forall|s: int|
                0 <= s < slot_configs@.len() ==> are_slot_options(
                    *final(word_list),
                    fill@,
                    slot_configs@[s],
                    grid_width as int,
                    global_min_score,
                    #[trigger] slot_options@[s]@,
                )
        },
{
    let mut slot_id: usize = 0;
    while slot_id < slot_configs.len()
        invariant
            *word_list == *old(word_list),
            old(word_list).wf(),
            forall|s: int|
                0 <= s < slot_configs@.len() ==> (#[trigger] slot_configs@[s]).fits(
                    fill@.len() as int,
                    grid_width as int,
                ),
            0 <= slot_id <= slot_configs@.len(),
            forall|s: int|
                0 <= s < slot_id && has_gap(
                    slot_configs@[s].fill_values(fill@, grid_width as int),
                ) ==> is_matchable((#[trigger] slot_configs@[s]).filter_pattern),
        decreases slot_configs@.len() - slot_id,
    {
        let slot: &SlotConfig = &slot_configs[slot_id];
        let entry_fill: Vec<Option<GlyphId>> = slot.fill(fill, grid_width);
        if lacks_pattern(entry_fill.as_slice(), slot.filter_pattern.as_ref()) {
            assert(!is_matchable(slot_configs@[slot_id as int].filter_pattern));
            return None;
        }
        slot_id = slot_id + 1;
    }
    Some(generate_all_slot_options(word_list, fill, slot_configs, grid_width, global_min_score))
}

/// Words that are explicitly allowed are among the options of an entry with a gap as long as they
/// don't contradict what is in its cells, whatever their score and whatever the filter pattern says.
pub proof fn lemma_allowed_words(
    word_list: WordList,
    entry_fill: Seq<Option<GlyphId>>,
    min_score: u16,
    filter_pattern: Option<Regex>,
    allowed_word_ids: Set<WordId>,
    options: Seq<WordId>,
    word_id: WordId,
)
    requires
        are_options(
            word_list,
            entry_fill,
            min_score,
            filter_pattern,
            allowed_word_ids,
            options,
        ),
        has_gap(entry_fill),
        word_id < word_list.words@[entry_fill.len() as int]@.len(),
        allowed_word_ids.contains(word_id),
    ensures
        options.contains(word_id) == agrees_with_fill(
            entry_fill,
            word_list.words@[entry_fill.len() as int]@[word_id as int].glyphs@,
        ),
{
    assert(options.contains(word_id) <==> is_option(
        word_list,
        entry_fill,
        min_score,
        filter_pattern,
        allowed_word_ids,
        word_id,
    ));
}

/// Words that are hidden or score too low are never among the options of an entry with a gap, unless
/// they are explicitly allowed.
pub proof fn lemma_unwanted_words(
    word_list: WordList,
    entry_fill: Seq<Option<GlyphId>>,
    min_score: u16,
    filter_pattern: Option<Regex>,
    allowed_word_ids: Set<WordId>,
    options: Seq<WordId>,
    word_id: WordId,
)
    requires
        are_options(
            word_list,
            entry_fill,
            min_score,
            filter_pattern,
            allowed_word_ids,
            options,
        ),
        has_gap(entry_fill),
        options.contains(word_id),
        !allowed_word_ids.contains(word_id),
    ensures
        !word_list.words@[entry_fill.len() as int]@[word_id as int].hidden,
        word_list.words@[entry_fill.len() as int]@[word_id as int].score >= min_score,
{
    assert(is_option(
        word_list,
        entry_fill,
        min_score,
        filter_pattern,
        allowed_word_ids,
        word_id,
    ));
}

/// The options of a slot with an open cell that has a minimum score of its own are the words that are
/// not hidden, score at least that much, have the glyphs of the cells that are populated, and are
/// matched by the filter pattern if there is one. The minimum score for the whole grid doesn't matter:
/// another one leads to the same options.
pub proof fn lemma_override_counts(
    word_list: WordList,
    fill: Seq<Option<GlyphId>>,
    slot_config: SlotConfig,
    grid_width: int,
    min_score: u16,
    global_min_score: u16,
    options: Seq<WordId>,
    other_min_score: u16,
    other_options: Seq<WordId>,
    open_cell: int,
)
    requires
        slot_config.min_score_override == Some(min_score),
        0 <= open_cell < slot_config.length,
        fill[slot_config.fill_index(open_cell, grid_width)] is None,
        are_slot_options(word_list, fill, slot_config, grid_width, global_min_score, options),
        are_slot_options(word_list, fill, slot_config, grid_width, other_min_score, other_options),
    ensures
        forall|w: WordId|
            w < word_list.words@[slot_config.length as int]@.len() ==> {
                let word = word_list.words@[slot_config.length as int]@[w as int];
                #[trigger] options.contains(w) <==> {
                    &&& !word.hidden
                    &&& word.score >= min_score
                    &&& forall|c: int|
                        0 <= c < slot_config.length ==> match fill[#[trigger] slot_config.fill_index(
                            c,
                            grid_width,
                        )] {
                            Some(glyph) => word.glyphs@[c] == glyph,
                            None => true,
                        }
                    &&& slot_config.filter_pattern matches Some(pattern) ==> regex_outcome(
                        pattern,
                        word.normalized_string@,
                    ) == Some(true)
                }
            },
        forall|w: WordId| options.contains(w) == #[trigger] other_options.contains(w),
        options == other_options,
{
    let values = slot_config.fill_values(fill, grid_width);
    assert(values[open_cell] is None);
    assert forall|w: WordId|
        w < word_list.words@[slot_config.length as int]@.len() implies {
        let word = word_list.words@[slot_config.length as int]@[w as int];
        #[trigger] options.contains(w) <==> {
            &&& !word.hidden
            &&& word.score >= min_score
            &&& forall|c: int|
                0 <= c < slot_config.length ==> match fill[#[trigger] slot_config.fill_index(
                    c,
                    grid_width,
                )] {
                    Some(glyph) => word.glyphs@[c] == glyph,
                    None => true,
                }
            &&& slot_config.filter_pattern matches Some(pattern) ==> regex_outcome(
                pattern,
                word.normalized_string@,
            ) == Some(true)
        }
    } by {
        lemma_slot_option(word_list, fill, slot_config, grid_width, global_min_score, options, w);
    }
    assert forall|w: WordId| options.contains(w) == #[trigger] other_options.contains(w) by {}
    lemma_increasing_equal(options, other_options);
}

/// The options of a slot with an open cell that has no minimum score of its own are the words that are
/// not hidden, score at least as much as is asked for the whole grid, have the glyphs of the cells
/// that are populated, and are matched by the filter pattern if there is one. A lower minimum score
/// doesn't take any of them away.
pub proof fn lemma_global_score_counts(
    word_list: WordList,
    fill: Seq<Option<GlyphId>>,
    slot_config: SlotConfig,
    grid_width: int,
    global_min_score: u16,
    options: Seq<WordId>,
    lower_min_score: u16,
    more_options: Seq<WordId>,
    open_cell: int,
)
    requires
        slot_config.min_score_override is None,
        0 <= open_cell < slot_config.length,
        fill[slot_config.fill_index(open_cell, grid_width)] is None,
        are_slot_options(word_list, fill, slot_config, grid_width, global_min_score, options),
        are_slot_options(
            word_list,
            fill,
            slot_config,
            grid_width,
            lower_min_score,
            more_options,
        ),
        lower_min_score <= global_min_score,
    ensures
        forall|w: WordId|
            w < word_list.words@[slot_config.length as int]@.len() ==> {
                let word = word_list.words@[slot_config.length as int]@[w as int];
                #[trigger] options.contains(w) <==> {
                    &&& !word.hidden
                    &&& word.score >= global_min_score
                    &&& forall|c: int|
                        0 <= c < slot_config.length ==> match fill[#[trigger] slot_config.fill_index(
                            c,
                            grid_width,
                        )] {
                            Some(glyph) => word.glyphs@[c] == glyph,
                            None => true,
                        }
                    &&& slot_config.filter_pattern matches Some(pattern) ==> regex_outcome(
                        pattern,
                        word.normalized_string@,
                    ) == Some(true)
                }
            },
        forall|w: WordId| #[trigger] options.contains(w) ==> more_options.contains(w),
{
    let values = slot_config.fill_values(fill, grid_width);
    assert(values[open_cell] is None);
    assert forall|w: WordId|
        w < word_list.words@[slot_config.length as int]@.len() implies {
        let word = word_list.words@[slot_config.length as int]@[w as int];
        #[trigger] options.contains(w) <==> {
            &&& !word.hidden
            &&& word.score >= global_min_score
            &&& forall|c: int|
                0 <= c < slot_config.length ==> match fill[#[trigger] slot_config.fill_index(
                    c,
                    grid_width,
                )] {
                    Some(glyph) => word.glyphs@[c] == glyph,
                    None => true,
                }
            &&& slot_config.filter_pattern matches Some(pattern) ==> regex_outcome(
                pattern,
                word.normalized_string@,
            ) == Some(true)
        }
    } by {
        lemma_slot_option(word_list, fill, slot_config, grid_width, global_min_score, options, w);
    }
    assert forall|w: WordId| #[trigger] options.contains(w) implies more_options.contains(w) by {
        assert(is_option(
            word_list,
            values,
            slot_min_score(slot_config, global_min_score),
            slot_config.filter_pattern,
            Set::empty(),
            w,
        ));
    }
}

/// What makes a word an option of a slot with an open cell.
proof fn lemma_slot_option(
    word_list: WordList,
    fill: Seq<Option<GlyphId>>,
    slot_config: SlotConfig,
    grid_width: int,
    global_min_score: u16,
    options: Seq<WordId>,
    w: WordId,
)
    requires
        has_gap(slot_config.fill_values(fill, grid_width)),
        are_slot_options(word_list, fill, slot_config, grid_width, global_min_score, options),
        w < word_list.words@[slot_config.length as int]@.len(),
    ensures
        ({
            let word = word_list.words@[slot_config.length as int]@[w as int];
            options.contains(w) <==> {
                &&& !word.hidden
                &&& word.score >= slot_min_score(slot_config, global_min_score)
                &&& forall|c: int|
                    0 <= c < slot_config.length ==> match fill[#[trigger] slot_config.fill_index(
                        c,
                        grid_width,
                    )] {
                        Some(glyph) => word.glyphs@[c] == glyph,
                        None => true,
                    }
                &&& slot_config.filter_pattern matches Some(pattern) ==> regex_outcome(
                    pattern,
                    word.normalized_string@,
                ) == Some(true)
            }
        }),
{
    let word = word_list.words@[slot_config.length as int]@[w as int];
    let values = slot_config.fill_values(fill, grid_width);
    assert(options.contains(w) <==> is_option(
        word_list,
        values,
        slot_min_score(slot_config, global_min_score),
        slot_config.filter_pattern,
        Set::empty(),
        w,
    ));
    if agrees_with_fill(values, word.glyphs@) {
        assert forall|c: int| 0 <= c < slot_config.length implies match fill[#[trigger] slot_config.fill_index(
            c,
            grid_width,
        )] {
            Some(glyph) => word.glyphs@[c] == glyph,
            None => true,
        } by {
            assert(values[c] == fill[slot_config.fill_index(c, grid_width)]);
        }
    } else {
        let c = choose|c: int|
            0 <= c < values.len() && !(match #[trigger] values[c] {
                Some(glyph) => glyph == word.glyphs@[c],
                None => true,
            });
        assert(values[c] == fill[slot_config.fill_index(c, grid_width)]);
    }
}

/// Increasing lists of the same words are the same.
proof fn lemma_increasing_equal(left: Seq<WordId>, right: Seq<WordId>)
    requires
        forall|i: int, k: int| 0 <= i < k < left.len() ==> left[i] < left[k],
        forall|i: int, k: int| 0 <= i < k < right.len() ==> right[i] < right[k],
        forall|w: WordId| left.contains(w) == #[trigger] right.contains(w),
    ensures
        left == right,
    decreases left.len(),
{
    if left.len() == 0 {
        if right.len() > 0 {
            assert(right.contains(right[0]));
        }
        assert(left =~= right);
    } else {
        assert(left.contains(left.last()));
        assert(right.contains(left.last()));
        let k = right.index_of(left.last());
        assert(right.contains(right.last()));
        assert(left.contains(right.last()));
        let i = left.index_of(right.last());
        assert(left[i] <= left.last());
        assert(right[k] <= right.last());
        let l = left.drop_last();
        let r = right.drop_last();
        assert forall|w: WordId| l.contains(w) == #[trigger] r.contains(w) by {
            if l.contains(w) {
                assert(left[l.index_of(w)] == w);
                assert(right.contains(w));
                assert(right[right.index_of(w)] == w);
                assert(r[right.index_of(w)] == w);
            }
            if r.contains(w) {
                assert(right[r.index_of(w)] == w);
                assert(right.contains(w));
                assert(left[left.index_of(w)] == w);
                assert(l[left.index_of(w)] == w);
            }
        }
        lemma_increasing_equal(l, r);
        assert(left =~= l.push(left.last()));
        assert(right =~= r.push(right.last()));
    }
}

/// The options of an entry are, in the order of their ids and each once: if some cell is empty, the
/// words that have the glyphs of the cells that are populated, and that are either explicitly allowed
/// or not hidden, with a score that is high enough, and matched by the filter pattern if there is one;
/// if no cell is empty, the one word that has exactly the glyphs of the cells.
pub proof fn lemma_entry_options(
    word_list: WordList,
    entry_fill: Seq<Option<GlyphId>>,
    min_score: u16,
    filter_pattern: Option<Regex>,
    allowed_word_ids: Set<WordId>,
    options: Seq<WordId>,
    w: WordId,
)
    requires
        are_options(
            word_list,
            entry_fill,
            min_score,
            filter_pattern,
            allowed_word_ids,
            options,
        ),
        w < word_list.words@[entry_fill.len() as int]@.len(),
        word_list.wf(),
    ensures
        forall|i: int, k: int| 0 <= i < k < options.len() ==> options[i] < options[k],
        ({
            let word = word_list.words@[entry_fill.len() as int]@[w as int];
            let agrees = forall|c: int|
                0 <= c < entry_fill.len() ==> match #[trigger] entry_fill[c] {
                    Some(glyph) => word.glyphs@[c] == glyph,
                    None => true,
                };
            let is_open = exists|c: int| 0 <= c < entry_fill.len() && #[trigger] entry_fill[c] is None;
            let is_good = !word.hidden && word.score >= min_score && (
            filter_pattern matches Some(pattern) ==> regex_outcome(
                pattern,
                word.normalized_string@,
            ) == Some(true));
            options.contains(w) <==> agrees && (!is_open || allowed_word_ids.contains(w) || is_good)
        }),
{
    let bucket = word_list.words@[entry_fill.len() as int]@;
    let word = bucket[w as int];
    assert(word_list.bucket_wf(entry_fill.len() as int, bucket));
    assert(word_list.word_wf(entry_fill.len() as int, word));
    if has_gap(entry_fill) {
        assert(options.contains(w) <==> is_option(
            word_list,
            entry_fill,
            min_score,
            filter_pattern,
            allowed_word_ids,
            w,
        ));
    } else {
        let only = bucket[options[0] as int];
        assert(word_list.word_wf(entry_fill.len() as int, only));
        let agrees = forall|c: int|
            0 <= c < entry_fill.len() ==> match #[trigger] entry_fill[c] {
                Some(glyph) => word.glyphs@[c] == glyph,
                None => true,
            };
        if agrees {
            assert forall|c: int| 0 <= c < entry_fill.len() implies word.glyphs@[c]
                == only.glyphs@[c] by {
                assert(entry_fill[c] == Some(only.glyphs@[c]));
            }
            assert(word.glyphs@ =~= only.glyphs@);
            let table = word_list.word_id_by_glyphs@[entry_fill.len() as int]@;
            assert(table[w as int] == table[options[0] as int]);
            assert(table.no_duplicates());
            assert(options[0] == w);
        }
        if options.contains(w) {
            assert(options.index_of(w) == 0);
            assert forall|c: int| 0 <= c < entry_fill.len() implies match #[trigger] entry_fill[c] {
                Some(glyph) => word.glyphs@[c] == glyph,
                None => true,
            } by {
                assert(entry_fill[c] == Some(only.glyphs@[c]));
            }
        }
    }
}

} // verus!
