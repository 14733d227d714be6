//! Building everything that a fill operation needs from a list of entries.

use crate::grid_config::{
    entry_cell, entry_fits, flat_index, Direction, GridConfig, OwnedGridConfig, SlotConfig, SlotSpec,
};
use crate::grid_template::{
    are_template_slots, columns, generate_slots_from_rows, is_template, is_template_slot,
    lemma_template_fits, lemma_template_planar, lemma_template_slots, read_template, template_rows,
    texts_of,
};
use crate::option_order::{
    all_options_in_list, is_layout, is_reordering, is_sorted, lemma_reordering, sort_slot_options,
    FillScorer,
};
use crate::slot_layout::{
    crossing_count, entries_fit, generate_slot_configs, is_crossing, is_planar, is_slot_config,
    lemma_crossing_id_bound, shares,
};
use crate::slot_options::{
    adds_hidden, agrees_with_fill, are_slot_options, fill_known, generate_all_slot_options, has_gap,
    lemma_adds_hidden_again,
};
use crate::text::chars_of;
use crate::types::{GlobalWordId, GlyphId, WordId};
use crate::util::options_in_list;
use crate::word_list::WordList;
use vstd::prelude::*;

verus! {

/// The cells hold the first characters of the texts.
pub open spec fn is_fill_of(
    word_list: WordList,
    raw_fill: Seq<Option<String>>,
    fill: Seq<Option<GlyphId>>,
) -> bool {
    &&& fill.len() == raw_fill.len()
    &&& forall|i: int|
        0 <= i < fill.len() ==> match (#[trigger] fill[i], raw_fill[i]) {
            (Some(glyph), Some(text)) => glyph < word_list.glyphs@.len()
                && word_list.glyphs@[glyph as int] == text@[0],
            (None, None) => true,
            _ => false,
        }
}

/// The glyphs that are new in the list are in the cells.
pub open spec fn adds_glyphs(
    word_list: WordList,
    earlier: WordList,
    fill: Seq<Option<GlyphId>>,
) -> bool {
    forall|g: GlyphId|
        earlier.glyphs@.len() <= g < word_list.glyphs@.len() ==> #[trigger] fill.contains(Some(g))
}

/// Every cell that is populated has a character.
pub open spec fn has_characters(raw_fill: Seq<Option<String>>) -> bool {
    forall|i: int|
        0 <= i < raw_fill.len() ==> match #[trigger] raw_fill[i] {
            Some(text) => text@.len() > 0,
            None => true,
        }
}

/// Look up the glyphs in the cells, adding those that aren't known yet.
fn read_fill(word_list: &mut WordList, raw_fill: &[Option<String>]) -> (fill: Vec<Option<GlyphId>>)
    requires
        old(word_list).wf(),
        has_characters(raw_fill@),
    ensures
        final(word_list).wf(),
        final(word_list).words == old(word_list).words,
        adds_hidden(*final(word_list), *old(word_list)),
        final(word_list).dupe_index == old(word_list).dupe_index,
        adds_glyphs(*final(word_list), *old(word_list), fill@),
        is_fill_of(*final(word_list), raw_fill@, fill@),
{
    let mut fill: Vec<Option<GlyphId>> = Vec::new();
    let mut i: usize = 0;
    while i < raw_fill.len()
        invariant
            has_characters(raw_fill@),
            word_list.wf(),
            word_list.words == old(word_list).words,
            word_list.dupe_index == old(word_list).dupe_index,
            old(word_list).glyphs@.is_prefix_of(word_list.glyphs@),
            adds_glyphs(*word_list, *old(word_list), fill@),
            0 <= i <= raw_fill@.len(),
            is_fill_of(*word_list, raw_fill@.take(i as int), fill@),
        decreases raw_fill@.len() - i,
    {
        let ghost before = *word_list;
        let cell: Option<GlyphId> = match &raw_fill[i] {
            Some(text) => {
                let chars: Vec<char> = chars_of(text.as_str());
                assert(raw_fill@[i as int] == Some(*text));
                Some(word_list.glyph_id_for_char(chars[0]))
            },
            None => None,
        };
        let ghost done = fill@;
        fill.push(cell);
        proof {
            assert(before.glyphs@.is_prefix_of(word_list.glyphs@));
            assert forall|g: GlyphId|
                old(word_list).glyphs@.len() <= g
                    < word_list.glyphs@.len() implies #[trigger] fill@.contains(Some(g)) by {
                if g < before.glyphs@.len() {
                    assert(done.contains(Some(g)));
                    assert(fill@[done.index_of(Some(g))] == Some(g));
                } else {
                    assert(word_list.glyphs@ == before.glyphs@.push(word_list.glyphs@[g as int]));
                    assert(word_list.glyphs@.no_duplicates());
                    assert(fill@[i as int] == Some(g));
                }
            }
            let done = raw_fill@.take(i as int);
            let next = raw_fill@.take(i + 1);
            assert forall|k: int| 0 <= k < fill@.len() implies match (#[trigger] fill@[k], next[k]) {
                (Some(glyph), Some(text)) => glyph < word_list.glyphs@.len()
                    && word_list.glyphs@[glyph as int] == text@[0],
                (None, None) => true,
                _ => false,
            } by {
                if k < i {
                    assert(next[k] == done[k]);
                }
            }
        }
        i = i + 1;
    }
    proof {
        assert(raw_fill@.take(i as int) =~= raw_fill@);
        assert forall|id: GlobalWordId| #[trigger] old(word_list).has_word(id) implies word_list.has_word(
            id,
        ) && word_list.word(id) == old(word_list).word(id) by {}
    }
    fill
}

/// The cells of an entry have a place in a flat array.
pub open spec fn entry_in_grid(entry: SlotSpec, fill_len: int, width: int) -> bool {
    &&& entry_fits(entry.start_cell, entry.direction, entry.length as int)
    &&& forall|c: int|
        0 <= c < entry.length ==> 0 <= #[trigger] flat_index(
            entry_cell(entry.start_cell, entry.direction, c),
            width,
        ) < fill_len
}

/// A cell of the entry is not populated.
pub open spec fn entry_has_gap(
    entry: SlotSpec,
    raw_fill: Seq<Option<String>>,
    width: int,
) -> bool {
    exists|c: int|
        0 <= c < entry.length && raw_fill[#[trigger] flat_index(
            entry_cell(entry.start_cell, entry.direction, c),
            width,
        )] is None
}

/// The entries can be made into a grid.
pub open spec fn is_grid(
    word_list: WordList,
    entries: Seq<SlotSpec>,
    raw_fill: Seq<Option<String>>,
    width: int,
) -> bool {
    &&& is_planar(entries)
    &&& has_characters(raw_fill)
    &&& forall|e: int|
        0 <= e < entries.len() ==> entry_in_grid(
            #[trigger] entries[e],
            raw_fill.len() as int,
            width,
        )
    &&& forall|e: int|
        0 <= e < entries.len() && entry_has_gap(#[trigger] entries[e], raw_fill, width)
            ==> entries[e].length < word_list.words@.len()
    &&& forall|n: int|
        0 <= n < word_list.words@.len() ==> (#[trigger] word_list.words@[n])@.len() <= u32::MAX
}

/// The slots of generated slot configs refer to each other.
proof fn lemma_layout(entries: Seq<SlotSpec>, slot_configs: Seq<SlotConfig>)
    requires
        slot_configs.len() == entries.len(),
        forall|e: int|
            0 <= e < entries.len() ==> is_slot_config(entries, e, #[trigger] slot_configs[e]),
    ensures
        is_layout(slot_configs),
{
    assert forall|s: int| 0 <= s < slot_configs.len() implies {
        &&& (#[trigger] slot_configs[s]).id == s
        &&& slot_configs[s].crossings@.len() == slot_configs[s].length
        &&& forall|c: int|
            0 <= c < slot_configs[s].length ==> match #[trigger] slot_configs[s].crossings@[c] {
                Some(crossing) => crossing.other_slot_id < slot_configs.len()
                    && crossing.other_slot_cell
                    < slot_configs[crossing.other_slot_id as int].length,
                None => true,
            }
    } by {
        assert(is_slot_config(entries, s, slot_configs[s]));
        assert forall|c: int| 0 <= c < slot_configs[s].length implies match #[trigger] slot_configs[s].crossings@[c] {
            Some(crossing) => crossing.other_slot_id < slot_configs.len()
                && crossing.other_slot_cell < slot_configs[crossing.other_slot_id as int].length,
            None => true,
        } by {
            assert(is_crossing(entries, s, c, slot_configs[s].crossings@[c]));
            if let Some(crossing) = slot_configs[s].crossings@[c] {
                let other = crossing.other_slot_id as int;
                assert(is_slot_config(entries, other, slot_configs[other]));
            }
        }
    }
}

/// Strictly increasing numbers below a bound are no more than the bound.
proof fn lemma_increasing_bound(numbers: Seq<WordId>, bound: int)
    requires
        forall|i: int, k: int| 0 <= i < k < numbers.len() ==> numbers[i] < numbers[k],
        forall|i: int| 0 <= i < numbers.len() ==> #[trigger] numbers[i] < bound,
        0 <= bound,
    ensures
        numbers.len() <= bound,
    decreases numbers.len(),
{
    if numbers.len() > 0 {
        let front = numbers.drop_last();
        let last = numbers.last() as int;
        assert(last == numbers[numbers.len() - 1]);
        assert forall|i: int| 0 <= i < front.len() implies #[trigger] front[i] < last by {
            assert(front[i] == numbers[i]);
        }
        lemma_increasing_bound(front, last);
    }
}

/// What is known of the options of a slot before they are sorted.
proof fn lemma_slot_options(
    before: WordList,
    word_list: WordList,
    fill: Seq<Option<GlyphId>>,
    slot_config: SlotConfig,
    width: int,
    min_score: u16,
    options: Seq<WordId>,
)
    requires
        word_list.wf(),
        adds_hidden(word_list, before),
        forall|n: int|
            0 <= n < before.words@.len() ==> (#[trigger] before.words@[n])@.len() <= u32::MAX,
        has_gap(slot_config.fill_values(fill, width)) ==> slot_config.length < before.words@.len(),
        are_slot_options(word_list, fill, slot_config, width, min_score, options),
    ensures
        options_in_list(word_list, slot_config.length as int, options),
        options.len() <= u32::MAX,
        options.no_duplicates(),
        !has_gap(slot_config.fill_values(fill, width)) ==> options.len() == 1,
        forall|i: int|
            0 <= i < options.len() ==> agrees_with_fill(
                slot_config.fill_values(fill, width),
                word_list.words@[slot_config.length as int]@[#[trigger] options[i] as int].glyphs@,
            ),
{
    let length = slot_config.length;
    let entry_fill = slot_config.fill_values(fill, width);
    let bucket = word_list.words@[length as int]@;
    assert(word_list.bucket_wf(length as int, bucket));
    if has_gap(entry_fill) {
        assert forall|i: int| 0 <= i < options.len() implies #[trigger] options[i]
            < before.words@[length as int]@.len() && options[i] < bucket.len() && agrees_with_fill(
            entry_fill,
            bucket[options[i] as int].glyphs@,
        ) by {
            assert(options.contains(options[i]));
            let id = (length, options[i]);
            assert(word_list.has_word(id));
            if !before.has_word(id) {
                assert(word_list.word(id).hidden);
            }
        }
        lemma_increasing_bound(options, before.words@[length as int]@.len() as int);
        assert(options.no_duplicates()) by {
            assert forall|i: int, k: int|
                0 <= i < options.len() && 0 <= k < options.len() && i != k implies options[i]
                != options[k] by {
                if i < k {
                    assert(options[i] < options[k]);
                } else {
                    assert(options[k] < options[i]);
                }
            }
        }
    } else {
        let glyphs = bucket[options[0] as int].glyphs@;
        assert forall|c: int| 0 <= c < entry_fill.len() implies match #[trigger] entry_fill[c] {
            Some(glyph) => glyph == glyphs[c],
            None => true,
        } by {}
    }
}

/// A grid that is put together from matching parts can be handed to a fill operation.
proof fn lemma_config_wf(
    config: GridConfig,
    entries: Seq<SlotSpec>,
    unsorted: Seq<Vec<WordId>>,
)
    requires
        config.word_list.wf(),
        is_planar(entries),
        config.slot_configs@.len() == entries.len(),
        forall|e: int|
            0 <= e < entries.len() ==> is_slot_config(
                entries,
                e,
                #[trigger] config.slot_configs@[e],
            ),
        config.crossing_count == crossing_count(entries),
        forall|e: int|
            0 <= e < entries.len() ==> entry_in_grid(
                #[trigger] entries[e],
                config.fill@.len() as int,
                config.width as int,
            ),
        unsorted.len() == entries.len(),
        config.slot_options@.len() == entries.len(),
        forall|s: int|
            0 <= s < entries.len() ==> is_reordering(
                (#[trigger] config.slot_options@[s])@,
                unsorted[s]@,
            ),
        forall|s: int|
            0 <= s < entries.len() ==> {
                let values = config.slot_configs@[s].fill_values(config.fill@, config.width as int);
                let bucket = config.word_list.words@[config.slot_configs@[s].length as int]@;
                let options = (#[trigger] unsorted[s])@;
                &&& options_in_list(
                    *config.word_list,
                    config.slot_configs@[s].length as int,
                    options,
                )
                &&& options.len() <= u32::MAX
                &&& options.no_duplicates()
                &&& !has_gap(values) ==> options.len() == 1
                &&& forall|i: int|
                    0 <= i < options.len() ==> agrees_with_fill(
                        values,
                        bucket[#[trigger] options[i] as int].glyphs@,
                    )
            },
    ensures
        config.wf(),
{
    let width = config.width as int;
    assert forall|s: int| 0 <= s < config.slot_count() implies #[trigger] config.slot_wf(s)
        && config.options_match_fill(s) by {
        let slot = config.slot_configs@[s];
        assert(is_slot_config(entries, s, slot));
        assert(slot.identity() == entries[s]);
        let options = config.options(s);
        let old_options = unsorted[s]@;
        assert(is_reordering(config.slot_options@[s]@, old_options));
        assert(unsorted[s].len() == unsorted[s]@.len());
        lemma_reordering(options, old_options);
        assert(entry_in_grid(entries[s], config.fill@.len() as int, width));
        assert(slot.fits(config.fill@.len() as int, width)) by {
            assert forall|c: int| 0 <= c < slot.length implies 0 <= #[trigger] slot.fill_index(
                c,
                width,
            ) < config.fill@.len() by {
                assert(slot.fill_index(c, width) == flat_index(
                    entry_cell(entries[s].start_cell, entries[s].direction, c),
                    width,
                ));
            }
        }
        let values = slot.fill_values(config.fill@, width);
        let bucket = config.word_list.words@[slot.length as int]@;
        assert forall|i: int| 0 <= i < options.len() implies #[trigger] options[i] < bucket.len()
            && config.word_list.word_wf(slot.length as int, bucket[options[i] as int])
            && agrees_with_fill(values, bucket[options[i] as int].glyphs@) by {
            assert(options.contains(options[i]));
            let k = old_options.index_of(options[i]);
            assert(old_options[k] == options[i]);
        }
        if config.prefilled(s) {
            assert(!has_gap(values)) by {
                if has_gap(values) {
                    let c = choose|c: int|
                        0 <= c < values.len() && (#[trigger] values[c]) is None;
                    assert(values[c] == config.fill@[slot.fill_index(c, width)]);
                }
            }
        }
        assert forall|i: int, c: int|
            #![trigger config.glyph(s, options[i], c)]
            0 <= i < options.len() && 0 <= c < config.slot_length(s) implies match (
        config.fill@[slot.fill_index(c, width)]) {
            Some(glyph) => config.glyph(s, options[i], c) == glyph,
            None => true,
        } by {
            assert(agrees_with_fill(values, bucket[options[i] as int].glyphs@));
            assert(values[c] == config.fill@[slot.fill_index(c, width)]);
        }
    }
    assert forall|s: int| 0 <= s < config.slot_count() implies #[trigger] config.options_match_fill(
        s,
    ) by {
        assert(config.slot_wf(s));
    }
    assert forall|s: int, c: int|
        #![trigger config.slot_configs@[s].crossings@[c]]
        0 <= s < config.slot_count() && 0 <= c < config.slot_length(s) implies match (
    config.slot_configs@[s].crossings@[c]) {
        Some(crossing) => config.crossing_wf(s, c, crossing),
        None => true,
    } by {
        assert(is_slot_config(entries, s, config.slot_configs@[s]));
        assert(is_crossing(entries, s, c, config.slot_configs@[s].crossings@[c]));
        if let Some(crossing) = config.slot_configs@[s].crossings@[c] {
            let f = crossing.other_slot_id as int;
            let d = crossing.other_slot_cell as int;
            lemma_crossing_id_bound(entries, s, c, f, d, crossing.crossing_id);
            assert(is_slot_config(entries, f, config.slot_configs@[f]));
            assert(config.slot_configs@[f].identity() == entries[f]);
            assert(config.slot_configs@[s].identity() == entries[s]);
            assert(shares(entries, f, d, s, c));
            let back = config.slot_configs@[f].crossings@[d];
            assert(is_crossing(entries, f, d, back));
            assert(back is Some);
            assert(shares(
                entries,
                f,
                d,
                back->Some_0.other_slot_id as int,
                back->Some_0.other_slot_cell as int,
            ));
            assert(config.crosses(f, d, s, c));
        }
    }
}

/// The options of each slot of a grid are those that its criteria leave, sorted.
pub open spec fn has_sorted_options<S: FillScorer>(
    grid: OwnedGridConfig,
    min_score: u16,
    scorer: &S,
    unsorted: Seq<Vec<WordId>>,
) -> bool {
    &&& unsorted.len() == grid.slot_configs@.len()
    &&& grid.slot_options@.len() == grid.slot_configs@.len()
    &&& forall|s: int|
        0 <= s < unsorted.len() ==> are_slot_options(
            grid.word_list,
            grid.fill@,
            grid.slot_configs@[s],
            grid.width as int,
            min_score,
            #[trigger] unsorted[s]@,
        )
    &&& forall|s: int|
        0 <= s < unsorted.len() ==> is_sorted(
            scorer,
            grid.word_list,
            grid.slot_configs@,
            unsorted,
            s,
            (#[trigger] grid.slot_options@[s])@,
        )
}

/// Every word that is new in the list of a grid is the entry of a slot that is populated completely.
pub open spec fn adds_words(grid: OwnedGridConfig, word_list: WordList) -> bool {
    forall|id: GlobalWordId| #[trigger]
        grid.word_list.has_word(id) && !word_list.has_word(id) ==> {
            &&& grid.word_list.word(id).score == 0
            &&& grid.word_list.word(id).letter_score == 0
            &&& exists|s: int|
                0 <= s < grid.slot_options@.len() && !has_gap(
                    grid.slot_configs@[s].fill_values(grid.fill@, grid.width as int),
                ) && id == (grid.slot_configs@[s].length, (#[trigger] grid.slot_options@[s])@[0])
        }
}

/// The grid is what the entries and the fill describe.
pub open spec fn is_grid_of<S: FillScorer>(
    grid: OwnedGridConfig,
    word_list: WordList,
    entries: Seq<SlotSpec>,
    raw_fill: Seq<Option<String>>,
    min_score: u16,
    scorer: &S,
) -> bool {
    &&& adds_hidden(grid.word_list, word_list)
    &&& adds_glyphs(grid.word_list, word_list, grid.fill@)
    &&& adds_words(grid, word_list)
    &&& is_fill_of(grid.word_list, raw_fill, grid.fill@)
    &&& grid.slot_configs@.len() == entries.len()
    &&& forall|e: int|
        0 <= e < entries.len() ==> is_slot_config(entries, e, #[trigger] grid.slot_configs@[e])
    &&& grid.crossing_count == crossing_count(entries)
    &&& exists|unsorted: Seq<Vec<WordId>>| #[trigger]
        has_sorted_options(grid, min_score, scorer, unsorted)
    &&& !grid.abort
}

/// Generate an `OwnedGridConfig` representing a grid with specified entries.
pub fn generate_grid_config<S: FillScorer>(
    word_list: WordList,
    entries: &[SlotSpec],
    raw_fill: &[Option<String>],
    width: usize,
    height: usize,
    min_score: u16,
    scorer: &S,
) -> (grid: OwnedGridConfig)
    requires
        word_list.wf(),
        is_grid(word_list, entries@, raw_fill@, width as int),
    ensures
        grid.wf(),
        is_grid_of(grid, word_list, entries@, raw_fill@, min_score, scorer),
        grid.width == width,
        grid.height == height,
{
    let ghost given = word_list;
    let mut word_list: WordList = word_list;
    proof {
        assert forall|e: int| 0 <= e < entries@.len() implies entry_fits(
            (#[trigger] entries@[e]).start_cell,
            entries@[e].direction,
            entries@[e].length as int,
        ) by {
            assert(entry_in_grid(entries@[e], raw_fill@.len() as int, width as int));
        }
    }
    let (slot_configs, crossing_count): (Vec<SlotConfig>, usize) = generate_slot_configs(entries);
    let fill: Vec<Option<GlyphId>> = read_fill(&mut word_list, raw_fill);
    let ghost spelled = word_list;
    proof {
        lemma_layout(entries@, slot_configs@);
        assert forall|s: int| 0 <= s < slot_configs@.len() implies (#[trigger] slot_configs@[s]).fits(
            fill@.len() as int,
            width as int,
        ) && (has_gap(slot_configs@[s].fill_values(fill@, width as int)) ==> slot_configs@[s].length
            < word_list.words@.len()) by {
            let slot = slot_configs@[s];
            assert(is_slot_config(entries@, s, slot));
            assert(slot.identity() == entries@[s]);
            assert(entry_in_grid(entries@[s], raw_fill@.len() as int, width as int));
            assert forall|c: int| 0 <= c < slot.length implies 0 <= #[trigger] slot.fill_index(
                c,
                width as int,
            ) < fill@.len() by {
                assert(slot.fill_index(c, width as int) == flat_index(
                    entry_cell(entries@[s].start_cell, entries@[s].direction, c),
                    width as int,
                ));
            }
            let values = slot.fill_values(fill@, width as int);
            if has_gap(values) {
                let c = choose|c: int| 0 <= c < values.len() && (#[trigger] values[c]) is None;
                let index = slot.fill_index(c, width as int);
                assert(fill@[index] is None);
                assert(raw_fill@[index] is None);
                assert(raw_fill@[flat_index(
                    entry_cell(entries@[s].start_cell, entries@[s].direction, c),
                    width as int,
                )] is None);
                assert(entry_has_gap(entries@[s], raw_fill@, width as int));
            }
        }
        assert(fill_known(word_list, fill@)) by {
            assert forall|c: int| 0 <= c < fill@.len() implies match #[trigger] fill@[c] {
                Some(glyph) => glyph < word_list.glyphs@.len(),
                None => true,
            } by {}
        }
    }
    let mut slot_options: Vec<Vec<WordId>> = generate_all_slot_options(
        &mut word_list,
        fill.as_slice(),
        slot_configs.as_slice(),
        width,
        min_score,
    );
    let ghost unsorted = slot_options@;
    proof {
        lemma_adds_hidden_again(given, spelled, word_list);
        assert(is_fill_of(word_list, raw_fill@, fill@)) by {
            assert forall|i: int| 0 <= i < fill@.len() implies match (#[trigger] fill@[i], raw_fill@[i]) {
                (Some(glyph), Some(text)) => glyph < word_list.glyphs@.len()
                    && word_list.glyphs@[glyph as int] == text@[0],
                (None, None) => true,
                _ => false,
            } by {
                if let Some(glyph) = fill@[i] {
                    assert(spelled.glyphs@[glyph as int] == word_list.glyphs@[glyph as int]);
                }
            }
        }
        assert forall|s: int| 0 <= s < unsorted.len() implies {
            let values = slot_configs@[s].fill_values(fill@, width as int);
            let bucket = word_list.words@[slot_configs@[s].length as int]@;
            let options = (#[trigger] unsorted[s])@;
            &&& options_in_list(word_list, slot_configs@[s].length as int, options)
            &&& options.len() <= u32::MAX
            &&& options.no_duplicates()
            &&& !has_gap(values) ==> options.len() == 1
            &&& forall|i: int|
                0 <= i < options.len() ==> agrees_with_fill(
                    values,
                    bucket[#[trigger] options[i] as int].glyphs@,
                )
        } by {
            assert(are_slot_options(
                word_list,
                fill@,
                slot_configs@[s],
                width as int,
                min_score,
                slot_options@[s]@,
            ));
            lemma_slot_options(
                spelled,
                word_list,
                fill@,
                slot_configs@[s],
                width as int,
                min_score,
                unsorted[s]@,
            );
        }
        assert(all_options_in_list(word_list, slot_configs@, unsorted));
    }
    sort_slot_options(&word_list, slot_configs.as_slice(), &mut slot_options, scorer);
    let grid = OwnedGridConfig {
        word_list,
        fill,
        slot_configs,
        slot_options,
        width,
        height,
        crossing_count,
        abort: false,
    };
    proof {
        assert forall|id: GlobalWordId| #[trigger]
            grid.word_list.has_word(id) && !given.has_word(id) implies {
            &&& grid.word_list.word(id).score == 0
            &&& grid.word_list.word(id).letter_score == 0
            &&& exists|s: int|
                0 <= s < grid.slot_options@.len() && !has_gap(
                    grid.slot_configs@[s].fill_values(grid.fill@, grid.width as int),
                ) && id == (grid.slot_configs@[s].length, (#[trigger] grid.slot_options@[s])@[0])
        } by {
            assert(!spelled.has_word(id));
            let s = choose|s: int|
                0 <= s < unsorted.len() && !has_gap(
                    grid.slot_configs@[s].fill_values(grid.fill@, grid.width as int),
                ) && id == (grid.slot_configs@[s].length, (#[trigger] unsorted[s])@[0]);
            assert(unsorted[s]@.len() == 1);
            assert(is_reordering(grid.slot_options@[s]@, unsorted[s]@));
            lemma_reordering(grid.slot_options@[s]@, unsorted[s]@);
            assert(grid.slot_options@[s]@.contains(unsorted[s]@[0]));
        }
        assert(has_sorted_options(grid, min_score, scorer, unsorted));
        assert forall|config: GridConfig| #[trigger] config.is_view_of(grid) implies config.wf() by {
            lemma_config_wf(config, entries@, unsorted);
        }
    }
    grid
}

/// The cells of all rows, one row after the other.
pub open spec fn flattened(rows: Seq<Seq<char>>) -> Seq<char>
    decreases rows.len(),
{
    if rows.len() == 0 {
        Seq::empty()
    } else {
        flattened(rows.drop_last()) + rows.last()
    }
}

/// The cell is not populated.
pub open spec fn is_blank(cell: char) -> bool {
    cell == '.' || cell == '#'
}

/// The lowercase form of a character.
pub uninterp spec fn lowercase_of(ch: char) -> Seq<char>;

/// Calls `char::to_lowercase`, which maps a character to its lowercase form. Claimed is that the
/// result depends on nothing but the character and has at least one character.
#[verifier::external_body]
fn lowercase_char(ch: char) -> (text: String)
    ensures
        text@ == lowercase_of(ch),
        text@.len() >= 1,
{
    ch.to_lowercase().to_string()
}

/// The contents of cells, in lowercase.
pub open spec fn are_contents(cells: Seq<char>, raw_fill: Seq<Option<String>>) -> bool {
    &&& raw_fill.len() == cells.len()
    &&& forall|i: int|
        0 <= i < cells.len() ==> match #[trigger] raw_fill[i] {
            Some(text) => !is_blank(cells[i]) && text@ == lowercase_of(cells[i]) && text@.len()
                >= 1,
            None => is_blank(cells[i]),
        }
}

/// Read the contents of cells from the rows of a template.
pub fn read_contents(rows: &Vec<Vec<char>>) -> (raw_fill: Vec<Option<String>>)
    ensures
        are_contents(flattened(texts_of(rows@)), raw_fill@),
{
    let ghost texts = texts_of(rows@);
    let mut raw_fill: Vec<Option<String>> = Vec::new();
    let mut y: usize = 0;
    while y < rows.len()
        invariant
            texts == texts_of(rows@),
            0 <= y <= rows@.len(),
            are_contents(flattened(texts.take(y as int)), raw_fill@),
        decreases rows@.len() - y,
    {
        let row: &Vec<char> = &rows[y];
        let ghost done = flattened(texts.take(y as int));
        let mut x: usize = 0;
        while x < row.len()
            invariant
                0 <= x <= row@.len(),
                are_contents(done + row@.take(x as int), raw_fill@),
            decreases row@.len() - x,
        {
            let cell: char = row[x];
            let content: Option<String> = if cell == '.' || cell == '#' {
                None
            } else {
                Some(lowercase_char(cell))
            };
            let ghost before = raw_fill@;
            raw_fill.push(content);
            x = x + 1;
            proof {
                let cells = done + row@.take(x as int);
                let earlier = done + row@.take(x - 1);
                assert(cells =~= earlier.push(cell));
                assert forall|i: int| 0 <= i < cells.len() implies match #[trigger] raw_fill@[i] {
                    Some(text) => !is_blank(cells[i]) && text@ == lowercase_of(cells[i])
                        && text@.len() >= 1,
                    None => is_blank(cells[i]),
                } by {
                    if i < before.len() {
                        assert(raw_fill@[i] == before[i]);
                        assert(cells[i] == earlier[i]);
                    }
                }
            }
        }
        proof {
            assert(row@.take(x as int) =~= row@);
            assert(texts.take(y + 1).drop_last() =~= texts.take(y as int));
            assert(texts.take(y + 1).last() == row@);
        }
        y = y + 1;
    }
    assert(texts.take(y as int) =~= texts);
    raw_fill
}

/// Where a cell of a row is among all cells, at the latest.
proof fn lemma_flattened(rows: Seq<Seq<char>>, width: int, y: int, x: int)
    requires
        0 <= width,
        forall|i: int| 0 <= i < rows.len() ==> (#[trigger] rows[i]).len() >= width,
        0 <= y < rows.len(),
        0 <= x < rows[y].len(),
    ensures
        0 <= x + y * width < flattened(rows).len(),
    decreases rows.len(),
{
    let front = rows.drop_last();
    if y < rows.len() - 1 {
        assert(front[y] == rows[y]);
        assert forall|i: int| 0 <= i < front.len() implies (#[trigger] front[i]).len() >= width by {
            assert(front[i] == rows[i]);
        }
        lemma_flattened(front, width, y, x);
    } else {
        lemma_flattened_length(front, width);
        assert(flattened(rows).len() == flattened(front).len() + rows[y].len());
        assert(y * width >= 0) by (nonlinear_arith)
            requires
                y >= 0,
                width >= 0,
        ;
    }
}

/// Rows of at least a width have at least as many cells as a rectangle of that width.
proof fn lemma_flattened_length(rows: Seq<Seq<char>>, width: int)
    requires
        forall|i: int| 0 <= i < rows.len() ==> (#[trigger] rows[i]).len() >= width,
    ensures
        flattened(rows).len() >= rows.len() * width,
    decreases rows.len(),
{
    if rows.len() > 0 {
        let front = rows.drop_last();
        assert forall|i: int| 0 <= i < front.len() implies (#[trigger] front[i]).len() >= width by {
            assert(front[i] == rows[i]);
        }
        lemma_flattened_length(front, width);
        assert(rows.last() == rows[rows.len() - 1]);
        let n = rows.len() as int;
        assert((n - 1) * width + width == n * width) by (nonlinear_arith);
    } else {
        assert(rows.len() * width == 0) by (nonlinear_arith)
            requires
                rows.len() == 0,
        ;
    }
}

/// The slots of a template are in its grid.
proof fn lemma_template_in_grid(rows: Seq<Seq<char>>, slots: Seq<SlotSpec>, e: int)
    requires
        is_template(rows),
        are_template_slots(rows, slots),
        entries_fit(slots),
        0 <= e < slots.len(),
    ensures
        entry_in_grid(slots[e], flattened(rows).len() as int, rows[0].len() as int),
{
    lemma_template_slots(rows, slots);
    let slot = slots[e];
    let width = rows[0].len() as int;
    assert(slots.contains(slot));
    assert forall|c: int| 0 <= c < slot.length implies 0 <= #[trigger] flat_index(
        entry_cell(slot.start_cell, slot.direction, c),
        width,
    ) < flattened(rows).len() by {
        match slot.direction {
            Direction::Across => {
                lemma_flattened(rows, width, slot.start_cell.1 as int, slot.start_cell.0 + c);
            },
            Direction::Down => {
                assert(columns(rows)[slot.start_cell.0 as int].len() == rows.len());
                lemma_flattened(rows, width, slot.start_cell.1 + c, slot.start_cell.0 as int);
            },
        }
    }
}

/// A cell of the entry is not populated in the template.
pub open spec fn entry_is_open(entry: SlotSpec, cells: Seq<char>, width: int) -> bool {
    exists|c: int|
        0 <= c < entry.length && is_blank(
            cells[#[trigger] flat_index(
                entry_cell(entry.start_cell, entry.direction, c),
                width,
            )],
        )
}

/// The word list has room for the words of every length that the template needs.
pub open spec fn suits_template(word_list: WordList, rows: Seq<Seq<char>>) -> bool {
    &&& forall|slot: SlotSpec| #[trigger]
        is_template_slot(rows, slot) && entry_is_open(
            slot,
            flattened(rows),
            rows[0].len() as int,
        ) ==> slot.length < word_list.words@.len()
    &&& forall|n: int|
        0 <= n < word_list.words@.len() ==> (#[trigger] word_list.words@[n])@.len() <= u32::MAX
}

/// The grid is what a template describes.
pub open spec fn is_grid_of_template<S: FillScorer>(
    grid: OwnedGridConfig,
    word_list: WordList,
    rows: Seq<Seq<char>>,
    min_score: u16,
    scorer: &S,
) -> bool {
    &&& exists|slots: Seq<SlotSpec>, raw_fill: Seq<Option<String>>|
        #![trigger are_template_slots(rows, slots), are_contents(flattened(rows), raw_fill)]
        are_template_slots(rows, slots) && are_contents(flattened(rows), raw_fill) && is_grid_of(
            grid,
            word_list,
            slots,
            raw_fill,
            min_score,
            scorer,
        )
    &&& grid.width == rows[0].len()
    &&& grid.height == rows.len()
}

/// Generate an `OwnedGridConfig` from a template string with . representing empty cells, #
/// representing blocks, and letters representing themselves.
pub fn generate_grid_config_from_template_string<S: FillScorer>(
    word_list: WordList,
    template: &str,
    min_score: u16,
    scorer: &S,
) -> (grid: OwnedGridConfig)
    requires
        word_list.wf(),
        is_template(template_rows(template@)),
        suits_template(word_list, template_rows(template@)),
    ensures
        grid.wf(),
        is_grid_of_template(grid, word_list, template_rows(template@), min_score, scorer),
{
    let rows: Vec<Vec<char>> = read_template(template);
    let ghost texts = template_rows(template@);
    assert(texts_of(rows@) =~= texts);
    let slot_specs: Vec<SlotSpec> = generate_slots_from_rows(&rows);
    let raw_fill: Vec<Option<String>> = read_contents(&rows);
    let width: usize = rows[0].len();
    let height: usize = rows.len();
    proof {
        let slots = slot_specs@;
        lemma_template_fits(rows@, slots);
        lemma_template_planar(texts, slots);
        lemma_template_slots(texts, slots);
        assert forall|e: int| 0 <= e < slots.len() implies entry_in_grid(
            #[trigger] slots[e],
            raw_fill@.len() as int,
            width as int,
        ) by {
            lemma_template_in_grid(texts, slots, e);
        }
        assert forall|e: int|
            0 <= e < slots.len() && entry_has_gap(
                #[trigger] slots[e],
                raw_fill@,
                width as int,
            ) implies slots[e].length < word_list.words@.len() by {
            let slot = slots[e];
            assert(slots.contains(slot));
            assert(is_template_slot(texts, slot));
            let c = choose|c: int|
                0 <= c < slot.length && raw_fill@[#[trigger] flat_index(
                    entry_cell(slot.start_cell, slot.direction, c),
                    width as int,
                )] is None;
            let index = flat_index(entry_cell(slot.start_cell, slot.direction, c), width as int);
            assert(entry_in_grid(slot, raw_fill@.len() as int, width as int));
            assert(raw_fill@[index] is None);
            assert(is_blank(flattened(texts)[index]));
            assert(entry_is_open(slot, flattened(texts), width as int));
        }
        assert(has_characters(raw_fill@)) by {
            assert forall|i: int| 0 <= i < raw_fill@.len() implies match #[trigger] raw_fill@[i] {
                Some(text) => text@.len() > 0,
                None => true,
            } by {}
        }
    }
    generate_grid_config(
        word_list,
        slot_specs.as_slice(),
        raw_fill.as_slice(),
        width,
        height,
        min_score,
        scorer,
    )
}

} // verus!
