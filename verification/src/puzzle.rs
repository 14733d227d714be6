//! What solving a crossword puzzle means, told by the letters in a grid and the lines of a word list.

use crate::backtracking_search::{are_retried, is_complete_fill, words_of, SearchDriver};
use crate::dupe_index::{have_common_substring, lemma_dupes_meaning};
use crate::fill_model::{crossings_agree, fillable, is_fill, no_clashes, uses_options, Assignment};
use crate::grid_config::{Choice, Direction, GridConfig, OwnedGridConfig, SlotSpec};
use crate::grid_input::{
    combined_errors, grid_error, has_no_solution, has_no_words, has_too_many_words, is_answer,
    is_file_result, is_given_up, is_list_of, is_page_result, is_said, is_solution, lemma_grid_error,
    longer_side, lowercase_text_of, nfc_of, nfkd_of, normalized_grid, normalized_lines,
    normalized_page, shows, FillError,
};
use crate::grid_setup::{
    are_contents, flattened, has_sorted_options, is_grid_of, is_grid_of_template, lowercase_of,
};
use crate::grid_template::{
    are_template_slots, columns, is_template, is_template_slot, lemma_template_slots, nonblank,
    template_rows,
};
use crate::option_order::{is_sorted, option_keys, sorted_by, taken_from, FillScorer};
use crate::render::{
    cells_text, chosen_char, given_cells, is_picture, is_rectangle, lemma_cell_count,
    lemma_flattened_cell, lemma_flattened_size, lemma_overlaps_recorded, lemma_shows_fill,
    lemma_text_is_picture, shown_at, with_cells, with_choices,
};
use crate::slot_layout::is_slot_config;
use crate::slot_options::{has_gap, lemma_global_score_counts};
use crate::sorting::is_stable_order;
use crate::text::{
    broken, is_white_space, lemma_split_joined, lemma_trimmed_part, line_parts, replaced, split, text_lines,
    trimmed,
};
use crate::types::{GlobalWordId, GlyphId, WordId};
use crate::word_list::{lemma_spelling_injective, WordList};
use crate::word_source::{
    is_bad_line, is_listed, lemma_bad_lines_reported, lemma_last_line_counts, lemma_line_lists,
    line_entry, line_errors, listed_score, lists,
};
use vstd::prelude::*;
use vstd::set_lib::{lemma_int_range, lemma_len_subset, set_int_range};

verus! {

/// The letter in a cell of a place, counted from its start.
pub open spec fn letter_at(rows: Seq<Seq<char>>, place: SlotSpec, c: int) -> char {
    match place.direction {
        Direction::Across => rows[place.start_cell.1 as int][place.start_cell.0 + c],
        Direction::Down => rows[place.start_cell.1 + c][place.start_cell.0 as int],
    }
}

/// The letters in the cells of a place.
pub open spec fn entry_at(rows: Seq<Seq<char>>, place: SlotSpec) -> Seq<char> {
    Seq::new(place.length as nat, |c: int| letter_at(rows, place, c))
}

/// There is room for a word: two cells or more one after the other without a block, between blocks or
/// the edges of the grid.
pub open spec fn is_place(rows: Seq<Seq<char>>, place: SlotSpec) -> bool {
    let x = place.start_cell.0 as int;
    let y = place.start_cell.1 as int;
    let length = place.length as int;
    &&& length >= 2
    &&& 0 <= x < rows[0].len()
    &&& 0 <= y < rows.len()
    &&& match place.direction {
        Direction::Across => x + length <= rows[y].len(),
        Direction::Down => y + length <= rows.len(),
    }
    &&& forall|c: int| 0 <= c < length ==> #[trigger] letter_at(rows, place, c) != '#'
    &&& match place.direction {
        Direction::Across => (x == 0 || rows[y][x - 1] == '#') && (x + length == rows[y].len()
            || rows[y][x + length] == '#'),
        Direction::Down => (y == 0 || rows[y - 1][x] == '#') && (y + length == rows.len() || rows[y
            + length][x] == '#'),
    }
}

/// Some cell of the place is empty.
pub open spec fn is_open_place(rows: Seq<Seq<char>>, place: SlotSpec) -> bool {
    exists|c: int| 0 <= c < place.length && #[trigger] letter_at(rows, place, c) == '.'
}

/// The words have a number of letters in a row in common.
pub open spec fn share_letters(left: Seq<char>, right: Seq<char>, size: nat) -> bool {
    exists|i: int, j: int|
        #![trigger left.subrange(i, i + size), right.subrange(j, j + size)]
        0 <= i <= left.len() - size && 0 <= j <= right.len() - size && left.subrange(i, i + size)
            == right.subrange(j, j + size)
}

/// The rules of the puzzle, given which words may be used: the letters that are given stay, every
/// place with an empty cell gets a word that may be used, and no word duplicates another. Words that
/// have too many letters in a row in common duplicate each other too, if there is a limit on that.
/// Entries that were given completely may be anything.
pub open spec fn obeys_rules(
    rows: Seq<Seq<char>>,
    usable: spec_fn(Seq<char>) -> bool,
    max_shared_substring: Option<usize>,
    solved: Seq<Seq<char>>,
) -> bool {
    &&& solved.len() == rows.len()
    &&& is_rectangle(solved, rows[0].len() as int)
    &&& forall|y: int, x: int|
        0 <= y < rows.len() && 0 <= x < rows[0].len() && rows[y][x] != '.' && rows[y][x] != '#'
            ==> #[trigger] solved[y][x] == lowercase_of(rows[y][x])[0]
    &&& forall|place: SlotSpec|
        is_place(rows, place) && is_open_place(rows, place) ==> usable(
            #[trigger] entry_at(solved, place),
        )
    &&& forall|one: SlotSpec, other: SlotSpec|
        #![trigger entry_at(solved, one), entry_at(solved, other)]
        is_place(rows, one) && is_place(rows, other) && one != other && is_open_place(rows, one)
            ==> {
            &&& entry_at(solved, one) != entry_at(solved, other)
            &&& max_shared_substring matches Some(limit) ==> !share_letters(
                entry_at(solved, one),
                entry_at(solved, other),
                (limit + 1) as nat,
            )
        }
}

/// A grid and where it comes from.
spec fn is_setting<S: FillScorer>(
    config: GridConfig,
    grid: OwnedGridConfig,
    list: WordList,
    rows: Seq<Seq<char>>,
    slots: Seq<SlotSpec>,
    raw_fill: Seq<Option<String>>,
    min_score: u16,
    scorer: &S,
) -> bool {
    &&& config.is_view_of(grid)
    &&& config.wf()
    &&& list.wf()
    &&& is_template(rows)
    &&& is_rectangle(rows, rows[0].len() as int)
    &&& are_template_slots(rows, slots)
    &&& are_contents(flattened(rows), raw_fill)
    &&& is_grid_of(grid, list, slots, raw_fill, min_score, scorer)
    &&& config.width == rows[0].len()
    &&& config.height == rows.len()
}

/// The places in a template are its slots.
proof fn lemma_place(rows: Seq<Seq<char>>, place: SlotSpec)
    requires
        is_template(rows),
        is_rectangle(rows, rows[0].len() as int),
    ensures
        is_place(rows, place) == is_template_slot(rows, place),
{
    let x = place.start_cell.0 as int;
    let y = place.start_cell.1 as int;
    let length = place.length as int;
    match place.direction {
        Direction::Across => {
            if is_place(rows, place) {
                assert forall|i: int| x <= i < x + length implies #[trigger] rows[y][i] != '#' by {
                    assert(letter_at(rows, place, i - x) != '#');
                }
            }
        },
        Direction::Down => {
            let column = columns(rows)[x];
            if is_place(rows, place) {
                assert forall|i: int| y <= i < y + length implies #[trigger] column[i] != '#' by {
                    assert(letter_at(rows, place, i - y) != '#');
                }
            }
            if is_template_slot(rows, place) {
                assert forall|c: int| 0 <= c < length implies #[trigger] letter_at(rows, place, c)
                    != '#' by {
                    assert(column[y + c] != '#');
                }
                if y > 0 {
                    assert(column[y - 1] == rows[y - 1][x]);
                }
                if y + length < rows.len() {
                    assert(column[y + length] == rows[y + length][x]);
                }
            }
        },
    }
}

/// A slot of the grid is a place in the template, and its cells hold what the template says.
proof fn lemma_slot_place<S: FillScorer>(
    config: GridConfig,
    grid: OwnedGridConfig,
    list: WordList,
    rows: Seq<Seq<char>>,
    slots: Seq<SlotSpec>,
    raw_fill: Seq<Option<String>>,
    min_score: u16,
    scorer: &S,
    s: int,
)
    requires
        is_setting(config, grid, list, rows, slots, raw_fill, min_score, scorer),
        0 <= s < slots.len(),
    ensures
        config.slot_count() == slots.len(),
        config.slot_configs@[s].identity() == slots[s],
        is_place(rows, slots[s]),
        forall|c: int|
            0 <= c < slots[s].length ==> match config.fill@[#[trigger] config.slot_configs@[s].fill_index(
                c,
                config.width as int,
            )] {
                Some(glyph) => glyph < config.word_list.glyphs@.len() && letter_at(
                    rows,
                    slots[s],
                    c,
                ) != '.' && config.word_list.glyphs@[glyph as int] == lowercase_of(
                    letter_at(rows, slots[s], c),
                )[0],
                None => letter_at(rows, slots[s], c) == '.',
            },
        config.prefilled(s) == !is_open_place(rows, slots[s]),
        has_gap(config.slot_configs@[s].fill_values(config.fill@, config.width as int))
            == is_open_place(rows, slots[s]),
{
    let width = rows[0].len() as int;
    let slot = config.slot_configs@[s];
    assert(is_slot_config(slots, s, grid.slot_configs@[s]));
    lemma_template_slots(rows, slots);
    assert(slots.contains(slots[s]));
    lemma_place(rows, slots[s]);
    assert forall|c: int| 0 <= c < slots[s].length implies match config.fill@[#[trigger] slot.fill_index(
        c,
        config.width as int,
    )] {
        Some(glyph) => glyph < config.word_list.glyphs@.len() && letter_at(rows, slots[s], c) != '.'
            && config.word_list.glyphs@[glyph as int] == lowercase_of(
            letter_at(rows, slots[s], c),
        )[0],
        None => letter_at(rows, slots[s], c) == '.',
    } by {
        let (x, y): (int, int) = slot.cell(c);
        assert(rows[y].len() == width);
        assert(0 <= x < width && 0 <= y < rows.len());
        lemma_flattened_cell(rows, width, y, x);
        let i = y * width + x;
        assert(slot.fill_index(c, config.width as int) == i);
        assert(flattened(rows)[i] == letter_at(rows, slots[s], c));
        assert(letter_at(rows, slots[s], c) != '#');
        assert(grid.fill@[i] == config.fill@[i]);
        assert(raw_fill[i] is Some == raw_fill[i] is Some);
    }
    let values = slot.fill_values(config.fill@, config.width as int);
    if is_open_place(rows, slots[s]) {
        let c = choose|c: int|
            0 <= c < slots[s].length && #[trigger] letter_at(rows, slots[s], c) == '.';
        assert(config.fill@[slot.fill_index(c, config.width as int)] is None);
        assert(values[c] is None);
    } else {
        assert forall|c: int| 0 <= c < slot.length implies config.fill@[#[trigger] slot.fill_index(
            c,
            config.width as int,
        )] is Some by {
            assert(letter_at(rows, slots[s], c) != '.');
        }
        if has_gap(values) {
            let c = choose|c: int| 0 <= c < values.len() && (#[trigger] values[c]) is None;
            assert(config.fill@[slot.fill_index(c, config.width as int)] is None);
        }
    }
}

/// The options of a slot are those of its criteria, in some order.
proof fn lemma_sorted_options<S: FillScorer>(
    scorer: &S,
    grid: OwnedGridConfig,
    unsorted: Seq<Vec<WordId>>,
    min_score: u16,
    s: int,
)
    requires
        has_sorted_options(grid, min_score, scorer, unsorted),
        0 <= s < unsorted.len(),
    ensures
        forall|w: WordId| #[trigger]
            grid.slot_options@[s]@.contains(w) <==> unsorted[s]@.contains(w),
{
    let options = unsorted[s]@;
    let sorted = grid.slot_options@[s]@;
    let length = grid.slot_configs@[s].length as int;
    assert(is_sorted(scorer, grid.word_list, grid.slot_configs@, unsorted, s, sorted));
    let fill_scores = choose|fill_scores: Seq<i64>| #[trigger]
        sorted_by(grid.word_list, length, options, fill_scores, sorted);
    let keys = option_keys(grid.word_list, length, options, fill_scores);
    let order = choose|order: Seq<usize>| #[trigger]
        is_stable_order(keys, order) && taken_from(sorted, options, order);
    assert forall|w: WordId| #[trigger] sorted.contains(w) <==> options.contains(w) by {
        if sorted.contains(w) {
            let k = sorted.index_of(w);
            assert(order[k] < keys.len());
            assert(options[order[k] as int] == w);
        }
        if options.contains(w) {
            let i = options.index_of(w);
            assert(unsorted[s].len() == options.len());
            assert(order.contains(i as usize));
            let k = order.index_of(i as usize);
            assert(sorted[k] == w);
        }
    }
}

/// Words of a list duplicate each other exactly when they are the same or have too many letters in a
/// row in common, if no pairs are recorded.
proof fn lemma_duplicates(list: WordList, left: GlobalWordId, right: GlobalWordId)
    requires
        list.wf(),
        list.has_word(left),
        list.has_word(right),
        list.dupe_index.model().extra == Map::<GlobalWordId, Seq<GlobalWordId>>::empty(),
    ensures
        list.dupe_index.model().dupes(left, right) == (list.text(left) == list.text(right) || (
        list.dupe_index.model().window > 0 && share_letters(
            list.text(left),
            list.text(right),
            list.dupe_index.model().window,
        ))),
{
    let model = list.dupe_index.model();
    let a = list.word(left).glyphs@;
    let b = list.word(right).glyphs@;
    assert(list.bucket_wf(left.0 as int, list.words@[left.0 as int]@));
    assert(list.bucket_wf(right.0 as int, list.words@[right.0 as int]@));
    assert(list.word_wf(left.0 as int, list.word(left)));
    assert(list.word_wf(right.0 as int, list.word(right)));
    if list.text(left) == list.text(right) {
        list.lemma_text_unique(left, right);
    }
    if model.window > 0 {
        lemma_dupes_meaning(model, left, a, right, b);
        let size = model.window;
        if have_common_substring(a, b, size) {
            let (i, j) = choose|i: int, j: int|
                #![trigger a.subrange(i, i + size), b.subrange(j, j + size)]
                0 <= i <= a.len() - size && 0 <= j <= b.len() - size && a.subrange(i, i + size)
                    == b.subrange(j, j + size);
            lemma_spelled_part(list, a, i, size);
            lemma_spelled_part(list, b, j, size);
        }
        if share_letters(list.text(left), list.text(right), size) {
            let (i, j) = choose|i: int, j: int|
                #![trigger list.text(left).subrange(i, i + size), list.text(right).subrange(j, j + size)]
                0 <= i <= list.text(left).len() - size && 0 <= j <= list.text(right).len() - size
                    && list.text(left).subrange(i, i + size) == list.text(right).subrange(
                    j,
                    j + size,
                );
            lemma_spelled_part(list, a, i, size);
            lemma_spelled_part(list, b, j, size);
            lemma_spelling_injective(list, a.subrange(i, i + size), b.subrange(j, j + size));
            assert(a.subrange(i, i + size) == b.subrange(j, j + size));
        }
    } else {
        assert(!model.substrings.contains_key(left));
    }
}

/// A part of the glyphs spells that part of the text.
proof fn lemma_spelled_part(list: WordList, glyphs: Seq<GlyphId>, i: int, size: nat)
    requires
        0 <= i,
        i + size <= glyphs.len(),
    ensures
        list.spelling(glyphs).len() == glyphs.len(),
        list.spelling(glyphs.subrange(i, i + size)) == list.spelling(glyphs).subrange(i, i + size),
{
    assert(list.spelling(glyphs.subrange(i, i + size)) =~= list.spelling(glyphs).subrange(
        i,
        i + size,
    ));
}

/// The word of a slot that has the letters of the solution.
spec fn is_solution_word(
    config: GridConfig,
    slots: Seq<SlotSpec>,
    solved: Seq<Seq<char>>,
    s: int,
    w: WordId,
) -> bool {
    &&& config.options(s).contains(w)
    &&& config.word_list.has_word((slots[s].length, w))
    &&& config.word_list.text((slots[s].length, w)) == entry_at(solved, slots[s])
}

/// A word that may be used is in the list.
pub open spec fn are_in_list(
    list: WordList,
    usable: spec_fn(Seq<char>) -> bool,
    min_score: u16,
) -> bool {
    forall|word: Seq<char>| #[trigger]
        usable(word) ==> exists|id: GlobalWordId| #[trigger]
            list.has_word(id) && list.text(id) == word && !list.word(id).hidden && list.word(
                id,
            ).score >= min_score
}

/// A word of the list may be used.
pub open spec fn are_usable(
    list: WordList,
    usable: spec_fn(Seq<char>) -> bool,
    min_score: u16,
) -> bool {
    forall|id: GlobalWordId| #[trigger]
        list.has_word(id) && !list.word(id).hidden && list.word(id).score >= min_score ==> usable(
            list.text(id),
        )
}

/// What makes words of the list duplicates of each other is the limit alone.
pub open spec fn keeps_apart(list: WordList, max_shared_substring: Option<usize>) -> bool {
    &&& list.dupe_index.model().extra == Map::<GlobalWordId, Seq<GlobalWordId>>::empty()
    &&& list.dupe_index.model().window == match max_shared_substring {
        Some(limit) => limit + 1,
        None => 0,
    }
}

/// A glyph of a word is that of its letter.
proof fn lemma_letter(list: WordList, id: GlobalWordId, c: int)
    requires
        list.wf(),
        list.has_word(id),
        0 <= c < id.0,
    ensures
        list.text(id).len() == id.0,
        list.word(id).glyphs@.len() == id.0,
        list.word(id).glyphs@[c] < list.glyphs@.len(),
        list.glyphs@[list.word(id).glyphs@[c] as int] == list.text(id)[c],
{
    assert(list.bucket_wf(id.0 as int, list.words@[id.0 as int]@));
    assert(list.word_wf(id.0 as int, list.word(id)));
}

/// The letters of a solution that are given are those of the template.
proof fn lemma_given_letter(
    rows: Seq<Seq<char>>,
    usable: spec_fn(Seq<char>) -> bool,
    max_shared_substring: Option<usize>,
    solved: Seq<Seq<char>>,
    place: SlotSpec,
    c: int,
)
    requires
        is_rectangle(rows, rows[0].len() as int),
        obeys_rules(rows, usable, max_shared_substring, solved),
        is_place(rows, place),
        0 <= c < place.length,
        letter_at(rows, place, c) != '.',
    ensures
        letter_at(solved, place, c) == lowercase_of(letter_at(rows, place, c))[0],
{
    let (x, y) = match place.direction {
        Direction::Across => (place.start_cell.0 + c, place.start_cell.1 as int),
        Direction::Down => (place.start_cell.0 as int, place.start_cell.1 + c),
    };
    assert(rows[y].len() == rows[0].len());
    assert(letter_at(rows, place, c) != '#');
    assert(solved[y][x] == lowercase_of(rows[y][x])[0]);
}

/// Every slot has an option with the letters of the solution.
proof fn lemma_solution_word<S: FillScorer>(
    config: GridConfig,
    grid: OwnedGridConfig,
    list: WordList,
    rows: Seq<Seq<char>>,
    slots: Seq<SlotSpec>,
    raw_fill: Seq<Option<String>>,
    min_score: u16,
    scorer: &S,
    usable: spec_fn(Seq<char>) -> bool,
    max_shared_substring: Option<usize>,
    solved: Seq<Seq<char>>,
    s: int,
)
    requires
        is_setting(config, grid, list, rows, slots, raw_fill, min_score, scorer),
        are_in_list(list, usable, min_score),
        obeys_rules(rows, usable, max_shared_substring, solved),
        0 <= s < slots.len(),
    ensures
        exists|w: WordId| is_solution_word(config, slots, solved, s, w),
{
    lemma_slot_place(config, grid, list, rows, slots, raw_fill, min_score, scorer, s);
    let slot = config.slot_configs@[s];
    let width = config.width as int;
    let words = *config.word_list;
    let text = entry_at(solved, slots[s]);
    let unsorted = choose|unsorted: Seq<Vec<WordId>>| #[trigger]
        has_sorted_options(grid, min_score, scorer, unsorted);
    lemma_sorted_options(scorer, grid, unsorted, min_score, s);
    assert(is_slot_config(slots, s, grid.slot_configs@[s]));
    let values = slot.fill_values(config.fill@, width);
    let options = unsorted[s]@;
    if is_open_place(rows, slots[s]) {
        assert(usable(text));
        let id = choose|id: GlobalWordId| #[trigger]
            list.has_word(id) && list.text(id) == text && !list.word(id).hidden && list.word(
                id,
            ).score >= min_score;
        assert(words.has_word(id) && words.word(id) == list.word(id));
        assert(words.bucket_wf(id.0 as int, words.words@[id.0 as int]@));
        assert(words.word_wf(id.0 as int, words.word(id)));
        assert(text.len() == slots[s].length);
        assert(id.0 == slots[s].length);
        let open = choose|c: int| 0 <= c < values.len() && (#[trigger] values[c]) is None;
        lemma_global_score_counts(
            words,
            config.fill@,
            slot,
            width,
            min_score,
            options,
            min_score,
            options,
            open,
        );
        assert forall|c: int| 0 <= c < slot.length implies match config.fill@[#[trigger] slot.fill_index(
            c,
            width,
        )] {
            Some(glyph) => words.word(id).glyphs@[c] == glyph,
            None => true,
        } by {
            if let Some(glyph) = config.fill@[slot.fill_index(c, width)] {
                lemma_given_letter(rows, usable, max_shared_substring, solved, slots[s], c);
                lemma_letter(words, id, c);
                assert(text[c] == letter_at(solved, slots[s], c));
                assert(words.glyphs@[glyph as int] == words.glyphs@[words.word(id).glyphs@[c] as int]);
            }
        }
        assert(options.contains(id.1));
        assert(grid.slot_options@[s]@.contains(id.1));
        assert(is_solution_word(config, slots, solved, s, id.1));
    } else {
        let w = options[0];
        let id = (slots[s].length, w);
        assert(options.contains(w));
        assert(grid.slot_options@[s]@.contains(w));
        assert(words.has_word(id));
        assert(words.bucket_wf(id.0 as int, words.words@[id.0 as int]@));
        assert(words.word_wf(id.0 as int, words.word(id)));
        assert forall|c: int| 0 <= c < text.len() implies words.text(id)[c] == text[c] by {
            lemma_letter(words, id, c);
            assert(values[c] == Some(words.word(id).glyphs@[c]));
            assert(config.fill@[slot.fill_index(c, width)] == values[c]);
            lemma_given_letter(rows, usable, max_shared_substring, solved, slots[s], c);
        }
        assert(words.text(id) =~= text);
        assert(is_solution_word(config, slots, solved, s, w));
    }
}

/// If a puzzle has a solution, the grid that is made of its template can be filled.
pub proof fn lemma_solution_fills<S: FillScorer>(
    config: GridConfig,
    grid: OwnedGridConfig,
    list: WordList,
    rows: Seq<Seq<char>>,
    min_score: u16,
    scorer: &S,
    usable: spec_fn(Seq<char>) -> bool,
    max_shared_substring: Option<usize>,
    solved: Seq<Seq<char>>,
)
    requires
        config.is_view_of(grid),
        grid.wf(),
        list.wf(),
        is_template(rows),
        is_rectangle(rows, rows[0].len() as int),
        is_grid_of_template(grid, list, rows, min_score, scorer),
        are_in_list(list, usable, min_score),
        keeps_apart(list, max_shared_substring),
        obeys_rules(rows, usable, max_shared_substring, solved),
    ensures
        fillable(config),
{
    let (slots, raw_fill) = choose|slots: Seq<SlotSpec>, raw_fill: Seq<Option<String>>|
        #![trigger are_template_slots(rows, slots), are_contents(flattened(rows), raw_fill)]
        are_template_slots(rows, slots) && are_contents(flattened(rows), raw_fill) && is_grid_of(
            grid,
            list,
            slots,
            raw_fill,
            min_score,
            scorer,
        );
    assert(config.wf());
    let list_words = *config.word_list;
    let words: Assignment = Seq::new(
        slots.len(),
        |s: int| choose|w: WordId| is_solution_word(config, slots, solved, s, w),
    );
    assert forall|s: int| 0 <= s < slots.len() implies is_solution_word(
        config,
        slots,
        solved,
        s,
        #[trigger] words[s],
    ) && config.slot_configs@[s].identity() == slots[s] && config.slot_count() == slots.len()
        && is_place(rows, slots[s]) && config.prefilled(s) == !is_open_place(rows, slots[s]) by {
        lemma_slot_place(config, grid, list, rows, slots, raw_fill, min_score, scorer, s);
        lemma_solution_word(
            config,
            grid,
            list,
            rows,
            slots,
            raw_fill,
            min_score,
            scorer,
            usable,
            max_shared_substring,
            solved,
            s,
        );
    }
    assert(uses_options(config, words));
    assert(crossings_agree(config, words)) by {
        assert forall|i: int, c: int, j: int, d: int| #[trigger]
            config.crosses(i, c, j, d) implies config.glyph(i, words[i], c) == config.glyph(
            j,
            words[j],
            d,
        ) by {
            let crossing = config.slot_configs@[i].crossings@[c]->Some_0;
            assert(config.crossing_wf(i, c, crossing));
            assert(config.crosses(j, d, i, c));
            assert(is_solution_word(config, slots, solved, i, words[i]));
            assert(is_solution_word(config, slots, solved, j, words[j]));
            assert(config.slot_configs@[i].cell(c) == config.slot_configs@[j].cell(d));
            assert(letter_at(solved, slots[i], c) == letter_at(solved, slots[j], d));
            lemma_letter(list_words, (slots[i].length, words[i]), c);
            lemma_letter(list_words, (slots[j].length, words[j]), d);
            assert(entry_at(solved, slots[i])[c] == entry_at(solved, slots[j])[d]);
        }
    }
    assert(no_clashes(config, words)) by {
        lemma_template_slots(rows, slots);
        assert forall|i: int, j: int|
            #![trigger config.clash(i, words[i], j, words[j])]
            0 <= i < config.slot_count() && 0 <= j < config.slot_count() && i != j && !(
            config.prefilled(i) && config.prefilled(j)) implies !config.clash(
            i,
            words[i],
            j,
            words[j],
        ) by {
            assert(is_solution_word(config, slots, solved, i, words[i]));
            assert(is_solution_word(config, slots, solved, j, words[j]));
            assert(slots[i] != slots[j]);
            lemma_duplicates(
                list_words,
                (slots[i].length, words[i]),
                (slots[j].length, words[j]),
            );
            let (one, other) = (entry_at(solved, slots[i]), entry_at(solved, slots[j]));
            if let Some(limit) = max_shared_substring {
                let size = (limit + 1) as nat;
                if share_letters(one, other, size) {
                    let (a, b) = choose|a: int, b: int|
                        #![trigger one.subrange(a, a + size), other.subrange(b, b + size)]
                        0 <= a <= one.len() - size && 0 <= b <= other.len() - size && one.subrange(
                            a,
                            a + size,
                        ) == other.subrange(b, b + size);
                    assert(other.subrange(b, b + size) == one.subrange(a, a + size));
                    assert(share_letters(other, one, size));
                }
            }
        }
    }
    assert(is_fill(config, words));
}

/// The letters of a grid after choices were written into it. Cells that nothing was written into are
/// blocks.
pub open spec fn letters_of(config: GridConfig, choices: Seq<Choice>) -> Seq<Seq<char>> {
    Seq::new(
        config.height as nat,
        |y: int|
            Seq::new(
                config.width as nat,
                |x: int|
                    match with_choices(config, choices)[y * config.width + x] {
                        Some(ch) => ch,
                        None => '#',
                    },
            ),
    )
}

/// A cell keeps what it holds if nothing else is written into it.
proof fn lemma_written(
    config: GridConfig,
    cells: Seq<Option<char>>,
    choice: Choice,
    n: int,
    index: int,
)
    requires
        0 <= index < cells.len(),
        0 <= n,
        forall|m: int|
            0 <= m < n ==> 0 <= #[trigger] config.slot_configs@[choice.slot_id as int].fill_index(
                m,
                config.width as int,
            ) < cells.len(),
        forall|m: int|
            0 <= m < n && #[trigger] config.slot_configs@[choice.slot_id as int].fill_index(
                m,
                config.width as int,
            ) == index ==> Some(chosen_char(config, choice, m)) == cells[index],
    ensures
        with_cells(config, cells, choice, n).len() == cells.len(),
        with_cells(config, cells, choice, n)[index] == cells[index],
    decreases n,
{
    if n > 0 {
        lemma_written(config, cells, choice, n - 1, index);
        let last = config.slot_configs@[choice.slot_id as int].fill_index(
            n - 1,
            config.width as int,
        );
        assert(0 <= last < cells.len());
        assert(last == index ==> Some(chosen_char(config, choice, n - 1)) == cells[index]);
    }
}

/// A cell that is given, or that belongs to no slot, stays as it is when a fill is written.
proof fn lemma_given_stays(config: GridConfig, choices: Seq<Choice>, n: int, index: int)
    requires
        config.wf(),
        is_complete_fill(config, choices),
        0 <= n <= choices.len(),
        0 <= index < config.fill@.len(),
        config.fill@[index] is Some || forall|s: int, c: int|
            0 <= s < config.slot_count() && 0 <= c < config.slot_length(s)
                ==> #[trigger] config.slot_configs@[s].fill_index(c, config.width as int) != index,
    ensures
        with_choices(config, choices.take(n)).len() == config.fill@.len(),
        with_choices(config, choices.take(n))[index] == given_cells(config)[index],
    decreases n,
{
    if n > 0 {
        lemma_given_stays(config, choices, n - 1, index);
        let t = n - 1;
        let choice = choices[t];
        let words = words_of(choices);
        assert(choices.take(n).drop_last() =~= choices.take(n - 1));
        assert(choices.take(n).last() == choice);
        assert(choice.slot_id == t);
        assert(config.slot_wf(t));
        assert(config.options(t).contains(words[t]));
        let k = config.options(t).index_of(words[t]);
        assert(config.options(t)[k] == choice.word_id);
        assert(config.options_match_fill(t));
        let before = with_choices(config, choices.take(n - 1));
        assert forall|m: int|
            0 <= m < config.slot_length(t) && #[trigger] config.slot_configs@[t].fill_index(
                m,
                config.width as int,
            ) == index implies Some(chosen_char(config, choice, m)) == before[index] by {
            assert(config.fill@[index] is Some);
            assert(config.glyph(t, config.options(t)[k], m) == config.fill@[index]->Some_0);
        }
        lemma_written(config, before, choice, config.slot_length(t), index);
    }
}

/// The letters of a filled grid are a solution of the puzzle.
pub proof fn lemma_fill_solves<S: FillScorer>(
    config: GridConfig,
    grid: OwnedGridConfig,
    list: WordList,
    rows: Seq<Seq<char>>,
    min_score: u16,
    scorer: &S,
    usable: spec_fn(Seq<char>) -> bool,
    max_shared_substring: Option<usize>,
    choices: Seq<Choice>,
)
    requires
        config.is_view_of(grid),
        grid.wf(),
        list.wf(),
        is_template(rows),
        is_rectangle(rows, rows[0].len() as int),
        is_grid_of_template(grid, list, rows, min_score, scorer),
        are_usable(list, usable, min_score),
        keeps_apart(list, max_shared_substring),
        is_complete_fill(config, choices),
    ensures
        obeys_rules(rows, usable, max_shared_substring, letters_of(config, choices)),
        forall|y: int, x: int|
            0 <= y < rows.len() && 0 <= x < rows[0].len() && rows[y][x] == '#'
                ==> #[trigger] letters_of(config, choices)[y][x] == '#',
{
    let (slots, raw_fill) = choose|slots: Seq<SlotSpec>, raw_fill: Seq<Option<String>>|
        #![trigger are_template_slots(rows, slots), are_contents(flattened(rows), raw_fill)]
        are_template_slots(rows, slots) && are_contents(flattened(rows), raw_fill) && is_grid_of(
            grid,
            list,
            slots,
            raw_fill,
            min_score,
            scorer,
        );
    assert(config.wf());
    let width = rows[0].len() as int;
    let words = words_of(choices);
    let list_words = *config.word_list;
    let solved = letters_of(config, choices);
    let cells = with_choices(config, choices);
    assert forall|e: int| 0 <= e < slots.len() implies is_slot_config(
        slots,
        e,
        #[trigger] config.slot_configs@[e],
    ) by {
        assert(is_slot_config(slots, e, grid.slot_configs@[e]));
    }
    lemma_overlaps_recorded(config, rows, slots);
    lemma_template_slots(rows, slots);
    assert(choices.take(choices.len() as int) =~= choices);
    // The letters that are given stay, and so do the blocks.
    assert forall|y: int, x: int|
        0 <= y < rows.len() && 0 <= x < rows[0].len() && rows[y][x] != '.' implies #[trigger] solved[y][x]
        == (if rows[y][x] == '#' {
        '#'
    } else {
        lowercase_of(rows[y][x])[0]
    }) by {
        let index = y * width + x;
        lemma_flattened_cell(rows, width, y, x);
        assert(grid.fill@[index] == config.fill@[index]);
        assert(raw_fill[index] is Some == raw_fill[index] is Some);
        if rows[y][x] == '#' {
            assert forall|s: int, c: int|
                0 <= s < config.slot_count() && 0 <= c < config.slot_length(
                    s,
                ) implies #[trigger] config.slot_configs@[s].fill_index(c, config.width as int)
                != index by {
                lemma_slot_place(config, grid, list, rows, slots, raw_fill, min_score, scorer, s);
                let (u, v): (int, int) = config.slot_configs@[s].cell(c);
                assert(rows[v].len() == width);
                assert(letter_at(rows, slots[s], c) != '#');
                if config.slot_configs@[s].fill_index(c, config.width as int) == index {
                    lemma_flattened_cell(rows, width, v, u);
                    assert(flattened(rows)[index] == rows[v][u]);
                }
            }
        }
        lemma_given_stays(config, choices, choices.len() as int, index);
    }
    // Every slot shows its word.
    assert forall|s: int| 0 <= s < slots.len() implies {
        &&& config.slot_configs@[s].identity() == slots[s]
        &&& config.slot_count() == slots.len()
        &&& is_place(rows, slots[s])
        &&& config.prefilled(s) == !is_open_place(rows, slots[s])
        &&& list_words.has_word((slots[s].length, #[trigger] words[s]))
        &&& list_words.text((slots[s].length, words[s])) == entry_at(solved, slots[s])
        &&& is_open_place(rows, slots[s]) ==> usable(entry_at(solved, slots[s]))
    } by {
        lemma_slot_place(config, grid, list, rows, slots, raw_fill, min_score, scorer, s);
        assert(config.slot_wf(s));
        assert(config.options(s).contains(words[s]));
        let id = (slots[s].length, words[s]);
        assert(config.options(s)[config.options(s).index_of(words[s])] == words[s]);
        assert(list_words.has_word(id));
        let text = entry_at(solved, slots[s]);
        assert(choices[s].slot_id == s && choices[s].word_id == words[s]);
        assert(list_words.bucket_wf(id.0 as int, list_words.words@[id.0 as int]@));
        assert(list_words.word_wf(id.0 as int, list_words.word(id)));
        assert forall|c: int| 0 <= c < text.len() implies list_words.text(id)[c] == text[c] by {
            lemma_letter(list_words, id, c);
            lemma_shows_fill(config, choices, s, c);
            let (x, y): (int, int) = config.slot_configs@[s].cell(c);
            assert(rows[y].len() == width);
            assert(config.slot_configs@[s].fill_index(c, config.width as int) == y * config.width + x);
            assert(solved[y][x] == chosen_char(config, choices[s], c));
        }
        assert(list_words.text(id) =~= text);
        if is_open_place(rows, slots[s]) {
            let unsorted = choose|unsorted: Seq<Vec<WordId>>| #[trigger]
                has_sorted_options(grid, min_score, scorer, unsorted);
            lemma_sorted_options(scorer, grid, unsorted, min_score, s);
            assert(is_slot_config(slots, s, grid.slot_configs@[s]));
            assert(grid.slot_options@[s]@.contains(words[s]));
            let slot = config.slot_configs@[s];
            let values = slot.fill_values(config.fill@, config.width as int);
            let open = choose|c: int| 0 <= c < values.len() && (#[trigger] values[c]) is None;
            lemma_global_score_counts(
                list_words,
                config.fill@,
                slot,
                config.width as int,
                min_score,
                unsorted[s]@,
                min_score,
                unsorted[s]@,
                open,
            );
            assert(!list_words.word(id).hidden && list_words.word(id).score >= min_score);
            assert(list.has_word(id));
            assert(usable(list.text(id)));
        }
    }
    assert forall|place: SlotSpec|
        is_place(rows, place) && is_open_place(rows, place) implies usable(
        #[trigger] entry_at(solved, place),
    ) by {
        lemma_place(rows, place);
        assert(slots.contains(place));
        let s = slots.index_of(place);
        assert(slots[s] == place);
        assert(list_words.has_word((slots[s].length, words[s])));
    }
    assert forall|one: SlotSpec, other: SlotSpec|
        #![trigger entry_at(solved, one), entry_at(solved, other)]
        is_place(rows, one) && is_place(rows, other) && one != other && is_open_place(
            rows,
            one,
        ) implies {
        &&& entry_at(solved, one) != entry_at(solved, other)
        &&& max_shared_substring matches Some(limit) ==> !share_letters(
            entry_at(solved, one),
            entry_at(solved, other),
            (limit + 1) as nat,
        )
    } by {
        lemma_place(rows, one);
        lemma_place(rows, other);
        assert(slots.contains(one) && slots.contains(other));
        let i = slots.index_of(one);
        let j = slots.index_of(other);
        assert(list_words.has_word((slots[i].length, words[i])));
        assert(list_words.has_word((slots[j].length, words[j])));
        assert(!config.clash(i, words[i], j, words[j]));
        lemma_duplicates(list_words, (one.length, words[i]), (other.length, words[j]));
    }
}

/// The lines that are not blank are the rows, trimmed and in order.
pub proof fn lemma_rows_of_lines(texts: Seq<Seq<char>>) -> (at: Seq<int>)
    ensures
        nonblank(texts).len() == at.len(),
        forall|k: int|
            0 <= k < at.len() ==> 0 <= #[trigger] at[k] < texts.len() && nonblank(texts)[k]
                == trimmed(texts[at[k]]) && trimmed(texts[at[k]]).len() > 0,
        forall|k: int, m: int| 0 <= k < m < at.len() ==> at[k] < at[m],
        forall|i: int|
            0 <= i < texts.len() && trimmed(#[trigger] texts[i]).len() > 0 ==> at.contains(i),
    decreases texts.len(),
{
    if texts.len() == 0 {
        Seq::empty()
    } else {
        let front = texts.drop_last();
        let before = lemma_rows_of_lines(front);
        let n = texts.len() - 1;
        let at = if trimmed(texts.last()).len() > 0 {
            before.push(n)
        } else {
            before
        };
        assert forall|i: int|
            0 <= i < texts.len() && trimmed(#[trigger] texts[i]).len() > 0 implies at.contains(i) by {
            if i < n {
                assert(front[i] == texts[i]);
                assert(at[before.index_of(i)] == i);
            } else {
                assert(at[before.len() as int] == n);
            }
        }
        assert forall|k: int| 0 <= k < at.len() implies 0 <= #[trigger] at[k] < texts.len()
            && nonblank(texts)[k] == trimmed(texts[at[k]]) && trimmed(texts[at[k]]).len() > 0 by {
            if k < before.len() {
                assert(before[k] == at[k]);
                assert(front[at[k]] == texts[at[k]]);
            }
        }
        at
    }
}

/// Positions in increasing order are at least as far as their number.
proof fn lemma_increasing(at: Seq<int>, k: int)
    requires
        forall|k: int| 0 <= k < at.len() ==> 0 <= #[trigger] at[k],
        forall|k: int, m: int| 0 <= k < m < at.len() ==> at[k] < at[m],
        0 <= k < at.len(),
    ensures
        at[k] >= k,
    decreases k,
{
    if k > 0 {
        lemma_increasing(at, k - 1);
        assert(at[k - 1] < at[k]);
    }
}

/// The longest word that a grid from a file is filled with is as long as its longest line and as its
/// number of lines, whichever is more. So it is at least as long as any place for a word, across or
/// down.
pub proof fn lemma_longest_word(text: Seq<char>, place: SlotSpec)
    requires
        text_lines(text).len() > 0,
        text_lines(text).len() <= usize::MAX,
        forall|i: int|
            0 <= i < text_lines(text).len() ==> (#[trigger] text_lines(text)[i]).len() == text_lines(
                text,
            )[0].len() && text_lines(text)[i].len() <= usize::MAX,
    ensures
        forall|i: int|
            0 <= i < text_lines(text).len() ==> (#[trigger] text_lines(text)[i]).len()
                <= longer_side(text),
        text_lines(text).len() <= longer_side(text),
        longer_side(text) == text_lines(text).len() || longer_side(text) == text_lines(
            text,
        )[0].len(),
        is_rectangle(template_rows(text), template_rows(text)[0].len() as int) && is_place(
            template_rows(text),
            place,
        ) ==> place.length <= longer_side(text),
{
    let lines = text_lines(text);
    let parts = split(text, '\n');
    let rows = template_rows(text);
    assert(lines[0].len() <= usize::MAX);
    assert forall|i: int| 0 <= i < lines.len() implies (#[trigger] lines[i]).len() <= longer_side(
        text,
    ) by {}
    let at = lemma_rows_of_lines(parts);
    lemma_split_joined(text, '\n');
    assert forall|k: int| 0 <= k < at.len() implies #[trigger] at[k] < lines.len()
        && rows[k].len() <= lines[at[k]].len() by {
        let i = at[k];
        let bounds = lemma_trimmed_part(parts[i]);
        assert(trimmed(parts[i]).len() == bounds.1 - bounds.0);
        if i == parts.len() - 1 && parts.last().len() == 0 {
            assert(false);
        }
        assert(i < lines.len());
        assert(line_parts(text)[i] == parts[i]);
        if parts[i].len() > 0 && parts[i].last() == '\r' {
            assert(is_white_space('\r'));
            assert(bounds.1 < parts[i].len());
        }
    }
    if is_rectangle(rows, rows[0].len() as int) && is_place(rows, place) {
        let last = at.len() - 1;
        lemma_increasing(at, last);
        assert(at[last] < lines.len());
        assert(rows.len() <= lines.len());
        assert(at[0] < lines.len());
        assert(rows[0].len() <= lines[at[0]].len());
        assert(lines[at[0]].len() <= longer_side(text));
        assert(rows[place.start_cell.1 as int].len() == rows[0].len());
    }
}

/// The words that may be used: those that a line of the list gives a score which is high enough, if no
/// later line lists them.
pub open spec fn usable_words(lines: Seq<Seq<char>>, min_score: u16) -> spec_fn(Seq<char>) -> bool {
    |word: Seq<char>| exists|score: nat| #[trigger] is_listed(lines, word, score) && score >= min_score
}

/// The words that may be used and are not too long.
spec fn short_words(
    lines: Seq<Seq<char>>,
    min_score: u16,
    max_length: Option<usize>,
) -> spec_fn(Seq<char>) -> bool {
    |word: Seq<char>|
        usable_words(lines, min_score)(word) && (max_length matches Some(max_length) ==> word.len()
            <= max_length)
}

/// Words that have a score are not too long.
proof fn lemma_listed_length(lines: Seq<Seq<char>>, max_length: Option<usize>, word: Seq<char>)
    requires
        listed_score(lines, max_length, word) is Some,
    ensures
        max_length matches Some(max_length) ==> word.len() <= max_length,
    decreases lines.len(),
{
    if line_entry(lines.last(), max_length) is Some && line_entry(
        lines.last(),
        max_length,
    )->Some_0.0 == word {
    } else {
        lemma_listed_length(lines.drop_last(), max_length, word);
    }
}

/// The list has the words that may be used.
proof fn lemma_list_words(
    list: WordList,
    contents: Seq<char>,
    min_score: u16,
    max_length: Option<usize>,
    max_shared_substring: Option<usize>,
)
    requires
        is_list_of(list, contents, max_length, max_shared_substring),
    ensures
        are_in_list(list, short_words(text_lines(contents), min_score, max_length), min_score),
        are_usable(list, usable_words(text_lines(contents), min_score), min_score),
        keeps_apart(list, max_shared_substring),
{
    let lines = text_lines(contents);
    let short = short_words(lines, min_score, max_length);
    assert forall|word: Seq<char>| #[trigger] short(word) implies exists|id: GlobalWordId| #[trigger]
        list.has_word(id) && list.text(id) == word && !list.word(id).hidden && list.word(id).score
            >= min_score by {
        let score = choose|score: nat| #[trigger]
            is_listed(lines, word, score) && score >= min_score;
        lemma_last_line_counts(lines, max_length, word, score);
        assert(list.knows(word));
        let id = choose|id: GlobalWordId| #[trigger] list.has_word(id) && list.text(id) == word;
        assert(list.has_word(id));
    }
    let usable = usable_words(lines, min_score);
    assert forall|id: GlobalWordId| #[trigger]
        list.has_word(id) && !list.word(id).hidden && list.word(id).score >= min_score implies usable(
        list.text(id),
    ) by {
        let word = list.text(id);
        let score = listed_score(lines, max_length, word)->Some_0;
        lemma_listed_length(lines, max_length, word);
        lemma_last_line_counts(lines, max_length, word, score);
        assert(is_listed(lines, word, score) && score >= min_score);
    }
}

/// A line lists a word with some score.
spec fn lists_word(line: Seq<char>, word: Seq<char>) -> bool {
    exists|score: nat| lists(line, word, score)
}

/// A line lists a single word.
proof fn lemma_lists_one(line: Seq<char>, left: Seq<char>, right: Seq<char>)
    requires
        lists_word(line, left),
        lists_word(line, right),
    ensures
        left == right,
{
    let left_score = choose|score: nat| lists(line, left, score);
    let right_score = choose|score: nat| lists(line, right, score);
    lemma_line_lists(line, None, left, left_score);
    lemma_line_lists(line, None, right, right_score);
}

/// A word list has no more words of a length than its contents have lines.
proof fn lemma_words_of_lines(
    list: WordList,
    contents: Seq<char>,
    max_length: Option<usize>,
    max_shared_substring: Option<usize>,
    length: int,
)
    requires
        is_list_of(list, contents, max_length, max_shared_substring),
        0 <= length < list.words@.len(),
    ensures
        list.words@[length]@.len() <= text_lines(contents).len(),
{
    let lines = text_lines(contents);
    let count = list.words@[length]@.len();
    list.lemma_length_fits(length);
    assert(list.words@[length].len() == count);
    let at = Seq::new(
        count,
        |w: int|
            choose|i: int|
                0 <= i < lines.len() && #[trigger] lists_word(
                    lines[i],
                    list.text((length as usize, w as usize)),
                ),
    );
    assert forall|w: int| 0 <= w < count implies 0 <= #[trigger] at[w] < lines.len() && lists_word(
        lines[at[w]],
        list.text((length as usize, w as usize)),
    ) by {
        let id = (length as usize, w as usize);
        assert(list.has_word(id));
        let word = list.text(id);
        let score = listed_score(lines, max_length, word)->Some_0;
        lemma_listed_length(lines, max_length, word);
        lemma_last_line_counts(lines, max_length, word, score);
        assert(is_listed(lines, word, score));
        let i = choose|i: int|
            {
                &&& 0 <= i < lines.len()
                &&& lists(#[trigger] lines[i], word, score)
                &&& forall|k: int, n: nat|
                    i < k < lines.len() ==> !#[trigger] lists(lines[k], word, n)
            };
        assert(lists(lines[i], word, score));
        assert(lists_word(lines[i], word));
    }
    assert forall|v: int, w: int| 0 <= v < count && 0 <= w < count && v != w implies at[v] != at[w] by {
        let (left, right) = ((length as usize, v as usize), (length as usize, w as usize));
        assert(0 <= at[v] < lines.len() && 0 <= at[w] < lines.len());
        if at[v] == at[w] {
            lemma_lists_one(lines[at[v]], list.text(left), list.text(right));
            list.lemma_text_unique(left, right);
        }
    }
    assert(at.no_duplicates());
    at.unique_seq_to_set();
    lemma_int_range(0, lines.len() as int);
    assert(at.to_set().subset_of(set_int_range(0, lines.len() as int)));
    lemma_len_subset(at.to_set(), set_int_range(0, lines.len() as int));
}

/// There is nothing wrong with the lines of a grid, the limit on shared substrings, and the lines of
/// the word list. There are so few of them that 32 bits are enough to count them.
pub open spec fn is_sound_input(
    text: Seq<char>,
    word_list_content: Seq<char>,
    max_shared_substring: Option<usize>,
) -> bool {
    let lines = text_lines(text);
    &&& 0 < lines.len() <= usize::MAX
    &&& forall|i: int|
        0 <= i < lines.len() ==> (#[trigger] lines[i]).len() == lines[0].len() && lines[i].len()
            <= usize::MAX
    &&& max_shared_substring matches Some(limit) ==> 3 <= limit <= 10
    &&& text_lines(word_list_content).len() <= 0xffff_ffff
    &&& forall|i: int|
        0 <= i < text_lines(word_list_content).len() ==> !is_bad_line(
            #[trigger] text_lines(word_list_content)[i],
        )
}

/// What is sound is not turned down.
proof fn lemma_sound_input(
    text: Seq<char>,
    word_list_content: Seq<char>,
    max_shared_substring: Option<usize>,
)
    requires
        is_sound_input(text, word_list_content, max_shared_substring),
    ensures
        grid_error(text_lines(text), max_shared_substring) is None,
        line_errors(text_lines(word_list_content)).len() == 0,
{
    lemma_grid_error(text_lines(text), max_shared_substring);
    let bad = lemma_bad_lines_reported(text_lines(word_list_content));
    if bad.len() > 0 {
        assert(bad.contains(bad[0]));
        assert(is_bad_line(text_lines(word_list_content)[bad[0]]));
    }
}

/// A puzzle that has a solution is not called unfillable.
proof fn lemma_said_solved<S: FillScorer, D: SearchDriver>(
    text: Seq<char>,
    word_list_content: Seq<char>,
    min_score: u16,
    max_length: Option<usize>,
    max_shared_substring: Option<usize>,
    scorer: &S,
    limited: bool,
    result: Result<String, String>,
    solved: Seq<Seq<char>>,
    open: SlotSpec,
)
    requires
        is_said::<S, D>(
            text,
            word_list_content,
            min_score,
            max_length,
            max_shared_substring,
            scorer,
            limited,
            result,
        ),
        is_sound_input(text, word_list_content, max_shared_substring),
        template_rows(text).len() > 0,
        is_rectangle(template_rows(text), template_rows(text)[0].len() as int),
        is_place(template_rows(text), open),
        is_open_place(template_rows(text), open),
        forall|place: SlotSpec| #[trigger]
            is_place(template_rows(text), place) ==> (max_length matches Some(max_length)
                ==> place.length <= max_length),
        obeys_rules(
            template_rows(text),
            usable_words(text_lines(word_list_content), min_score),
            max_shared_substring,
            solved,
        ),
    ensures
        result is Ok || (limited && exists|list: WordList|
            #![trigger is_given_up::<S, D>(list, text, min_score, scorer)]
            is_list_of(list, word_list_content, max_length, max_shared_substring) && is_given_up::<
                S,
                D,
            >(list, text, min_score, scorer)),
{
    let rows = template_rows(text);
    let lines = text_lines(word_list_content);
    let usable = usable_words(lines, min_score);
    let short = short_words(lines, min_score, max_length);
    lemma_sound_input(text, word_list_content, max_shared_substring);
    let (list, answer) = choose|list: WordList, answer: Result<Seq<char>, FillError>|
        #![trigger is_list_of(list, word_list_content, max_length, max_shared_substring), is_answer::<
            S,
            D,
        >(list, text, min_score, max_shared_substring, scorer, limited, answer)]
        {
            &&& is_list_of(list, word_list_content, max_length, max_shared_substring)
            &&& is_answer::<S, D>(
                list,
                text,
                min_score,
                max_shared_substring,
                scorer,
                limited,
                answer,
            )
            &&& match (result, answer) {
                (Ok(text), Ok(shown)) => text@ == shown,
                (Err(message), Err(error)) => message@ == error.text(),
                _ => false,
            }
        };
    lemma_list_words(list, word_list_content, min_score, max_length, max_shared_substring);
    assert(obeys_rules(rows, short, max_shared_substring, solved)) by {
        assert forall|place: SlotSpec|
            is_place(rows, place) && is_open_place(rows, place) implies short(
            #[trigger] entry_at(solved, place),
        ) by {
            assert(usable(entry_at(solved, place)));
            assert(entry_at(solved, place).len() == place.length);
        }
    }
    assert(short(entry_at(solved, open)));
    assert(!has_no_words(list));
    if has_too_many_words(list) {
        let n = choose|n: int|
            0 <= n < list.words@.len() && (#[trigger] list.words@[n])@.len() > u32::MAX;
        lemma_words_of_lines(list, word_list_content, max_length, max_shared_substring, n);
    }
    assert(is_template(rows)) by {
        assert forall|y: int| 0 <= y < rows.len() implies (#[trigger] rows[y]).len() >= rows[0].len() by {}
    }
    if has_no_solution(list, text, min_score, scorer) {
        let (grid, config) = choose|grid: OwnedGridConfig, config: GridConfig| #[trigger]
            config.is_view_of(grid) && grid.wf() && is_grid_of_template(
                grid,
                list,
                rows,
                min_score,
                scorer,
            ) && !fillable(config);
        lemma_solution_fills(
            config,
            grid,
            list,
            rows,
            min_score,
            scorer,
            short,
            max_shared_substring,
            solved,
        );
    }
}

/// The text shows a solution of a puzzle: the letters row by row, with a block wherever the template
/// has one.
pub open spec fn shows_solution(
    rows: Seq<Seq<char>>,
    usable: spec_fn(Seq<char>) -> bool,
    max_shared_substring: Option<usize>,
    text: Seq<char>,
) -> bool {
    exists|solved: Seq<Seq<char>>|
        {
            &&& #[trigger] obeys_rules(rows, usable, max_shared_substring, solved)
            &&& is_picture(
                solved.map_values(|row: Seq<char>| replaced(row, '.', '#')),
                rows[0].len() as int,
                text,
            )
            &&& forall|y: int, x: int|
                0 <= y < rows.len() && 0 <= x < rows[0].len() && rows[y][x] == '#'
                    ==> #[trigger] solved[y][x] == '#'
        }
}

/// What is shown is a solution.
proof fn lemma_said_shows<S: FillScorer, D: SearchDriver>(
    text: Seq<char>,
    word_list_content: Seq<char>,
    min_score: u16,
    max_length: Option<usize>,
    max_shared_substring: Option<usize>,
    scorer: &S,
    limited: bool,
    shown: String,
)
    requires
        is_said::<S, D>(
            text,
            word_list_content,
            min_score,
            max_length,
            max_shared_substring,
            scorer,
            limited,
            Ok(shown),
        ),
        template_rows(text).len() > 0,
        is_rectangle(template_rows(text), template_rows(text)[0].len() as int),
    ensures
        shows_solution(
            template_rows(text),
            usable_words(text_lines(word_list_content), min_score),
            max_shared_substring,
            shown@,
        ),
{
    let rows = template_rows(text);
    let lines = text_lines(word_list_content);
    let usable = usable_words(lines, min_score);
    let result: Result<String, String> = Ok(shown);
    let (list, answer) = choose|list: WordList, answer: Result<Seq<char>, FillError>|
        #![trigger is_list_of(list, word_list_content, max_length, max_shared_substring), is_answer::<
            S,
            D,
        >(list, text, min_score, max_shared_substring, scorer, limited, answer)]
        {
            &&& is_list_of(list, word_list_content, max_length, max_shared_substring)
            &&& is_answer::<S, D>(
                list,
                text,
                min_score,
                max_shared_substring,
                scorer,
                limited,
                answer,
            )
            &&& match (result, answer) {
                (Ok(text), Ok(shown)) => text@ == shown,
                (Err(message), Err(error)) => message@ == error.text(),
                _ => false,
            }
        };
    assert(is_solution(list, text, min_score, scorer, shown@));
    let (grid, config, choices) = choose|
        grid: OwnedGridConfig,
        config: GridConfig,
        choices: Seq<Choice>,
    |
        #![trigger config.is_view_of(grid), is_complete_fill(config, choices)]
        grid.wf() && is_grid_of_template(grid, list, rows, min_score, scorer) && config.is_view_of(
            grid,
        ) && is_complete_fill(config, choices) && shows(config, choices, shown@);
    lemma_list_words(list, word_list_content, min_score, max_length, max_shared_substring);
    assert(is_template(rows)) by {
        assert forall|y: int| 0 <= y < rows.len() implies (#[trigger] rows[y]).len() >= rows[0].len() by {}
    }
    lemma_fill_solves(
        config,
        grid,
        list,
        rows,
        min_score,
        scorer,
        usable,
        max_shared_substring,
        choices,
    );
    let solved = letters_of(config, choices);
    let width = rows[0].len() as int;
    let height = rows.len() as int;
    let cells = with_choices(config, choices);
    lemma_cells_kept(config, grid, list, rows, min_score, scorer, choices);
    let at = lemma_rows_of_lines(split(text, '\n'));
    assert(at[0] >= 0);
    assert(width > 0);
    lemma_text_is_picture(cells, width, height);
    let letters = solved.map_values(|row: Seq<char>| replaced(row, '.', '#'));
    let plain = Seq::new(
        height as nat,
        |y: int|
            Seq::new(
                width as nat,
                |x: int|
                    match cells[y * width + x] {
                        Some(ch) => ch,
                        None => '.',
                    },
            ),
    );
    let dotted = cells_text(cells, width, cells.len() as int);
    assert(is_picture(plain, width, dotted));
    assert(shown@ == replaced(dotted, '.', '#'));
    assert(is_picture(letters, width, shown@)) by {
        assert forall|y: int, x: int| 0 <= y < letters.len() && 0 <= x < width implies shown@[#[trigger] shown_at(
            width,
            y,
            x,
        )] == letters[y][x] by {
            assert(dotted[shown_at(width, y, x)] == plain[y][x]);
            lemma_shown_within(width, height, y, x);
            assert(solved[y][x] == solved[y][x]);
        }
        assert forall|y: int| 0 <= y < letters.len() - 1 implies shown@[#[trigger] shown_at(
            width,
            y,
            width,
        )] == '\n' by {
            assert(dotted[shown_at(width, y, width)] == '\n');
            lemma_shown_within(width, height, y, width);
        }
    }
}

/// Cells and line breaks are shown within the text.
proof fn lemma_shown_within(width: int, height: int, y: int, x: int)
    requires
        0 < width,
        0 <= y < height,
        0 <= x <= width,
        x == width ==> y < height - 1,
    ensures
        0 <= shown_at(width, y, x) < shown_at(width, height - 1, width),
{
    assert(0 <= y * (width + 1)) by (nonlinear_arith)
        requires
            0 <= y,
            0 < width,
    ;
    if y < height - 1 {
        assert(y * (width + 1) + (width + 1) <= (height - 1) * (width + 1)) by (nonlinear_arith)
            requires
                y + 1 <= height - 1,
                0 < width,
        ;
    }
}

/// A filled grid has as many cells as its template.
proof fn lemma_cells_kept<S: FillScorer>(
    config: GridConfig,
    grid: OwnedGridConfig,
    list: WordList,
    rows: Seq<Seq<char>>,
    min_score: u16,
    scorer: &S,
    choices: Seq<Choice>,
)
    requires
        config.is_view_of(grid),
        grid.wf(),
        is_template(rows),
        is_rectangle(rows, rows[0].len() as int),
        is_grid_of_template(grid, list, rows, min_score, scorer),
        is_complete_fill(config, choices),
    ensures
        config.fill@.len() == rows.len() * rows[0].len(),
        with_choices(config, choices).len() == config.fill@.len(),
        config.width == rows[0].len(),
        config.height == rows.len(),
{
    lemma_flattened_size(rows, rows[0].len() as int);
    assert(config.wf());
    lemma_cell_count(config, choices, choices.len() as int);
    assert(choices.take(choices.len() as int) =~= choices);
}

/// A puzzle from a file that has a solution is solved: if the letters can be put into the grid so that
/// every place gets a word of the list with a score that is high enough, and no word duplicates
/// another, a filled grid is shown and not an error.
pub proof fn lemma_file_solved<S: FillScorer, D: SearchDriver>(
    grid_content: Seq<char>,
    word_list_content: Seq<char>,
    min_score: u16,
    max_shared_substring: Option<usize>,
    scorer: &S,
    result: Result<String, String>,
    solved: Seq<Seq<char>>,
    open: SlotSpec,
)
    requires
        is_file_result::<S, D>(
            grid_content,
            word_list_content,
            min_score,
            max_shared_substring,
            scorer,
            result,
        ),
        is_sound_input(normalized_grid(grid_content), word_list_content, max_shared_substring),
        template_rows(normalized_grid(grid_content)).len() > 0,
        is_rectangle(
            template_rows(normalized_grid(grid_content)),
            template_rows(normalized_grid(grid_content))[0].len() as int,
        ),
        is_place(template_rows(normalized_grid(grid_content)), open),
        is_open_place(template_rows(normalized_grid(grid_content)), open),
        obeys_rules(
            template_rows(normalized_grid(grid_content)),
            usable_words(text_lines(word_list_content), min_score),
            max_shared_substring,
            solved,
        ),
    ensures
        result is Ok,
{
    let text = normalized_grid(grid_content);
    let max_length = Some(longer_side(text));
    assert forall|place: SlotSpec| #[trigger] is_place(template_rows(text), place) implies (
    max_length matches Some(max_length) ==> place.length <= max_length) by {
        lemma_longest_word(text, place);
    }
    lemma_said_solved::<S, D>(
        text,
        word_list_content,
        min_score,
        max_length,
        max_shared_substring,
        scorer,
        false,
        result,
        solved,
        open,
    );
}

/// A puzzle from a web page that has a solution from words that score at least as much as is asked for
/// is solved, unless the search is given up after 100000 attempts that all exceed their limits. A
/// minimum score that is given is used as it is, and 50 if none is given.
pub proof fn lemma_page_solved<S: FillScorer, D: SearchDriver>(
    grid_content: Seq<char>,
    word_list_content: Seq<char>,
    min_score: Option<u16>,
    wanted: u16,
    max_shared_substring: Option<usize>,
    scorer: &S,
    result: Result<String, String>,
    solved: Seq<Seq<char>>,
    open: SlotSpec,
)
    requires
        is_page_result::<S, D>(
            grid_content,
            word_list_content,
            min_score,
            max_shared_substring,
            scorer,
            result,
        ),
        min_score == Some(wanted) || (min_score is None && wanted == 50),
        is_sound_input(normalized_page(grid_content), word_list_content, max_shared_substring),
        template_rows(normalized_page(grid_content)).len() > 0,
        is_rectangle(
            template_rows(normalized_page(grid_content)),
            template_rows(normalized_page(grid_content))[0].len() as int,
        ),
        is_place(template_rows(normalized_page(grid_content)), open),
        is_open_place(template_rows(normalized_page(grid_content)), open),
        obeys_rules(
            template_rows(normalized_page(grid_content)),
            usable_words(text_lines(word_list_content), wanted),
            max_shared_substring,
            solved,
        ),
    ensures
        result is Ok || exists|list: WordList, grid: OwnedGridConfig, config: GridConfig|
            #![trigger is_list_of(list, word_list_content, None, max_shared_substring), config.is_view_of(
                grid,
            )]
            {
                &&& is_list_of(list, word_list_content, None, max_shared_substring)
                &&& config.is_view_of(grid)
                &&& is_grid_of_template(
                    grid,
                    list,
                    template_rows(normalized_page(grid_content)),
                    wanted,
                    scorer,
                )
                &&& are_retried::<D>(config, None, 100000)
            },
{
    lemma_said_solved::<S, D>(
        normalized_page(grid_content),
        word_list_content,
        wanted,
        None,
        max_shared_substring,
        scorer,
        true,
        result,
        solved,
        open,
    );
    if result is Err {
        let text = normalized_page(grid_content);
        let list = choose|list: WordList|
            #![trigger is_given_up::<S, D>(list, text, wanted, scorer)]
            is_list_of(list, word_list_content, None, max_shared_substring) && is_given_up::<S, D>(
                list,
                text,
                wanted,
                scorer,
            );
        let (grid, config) = choose|grid: OwnedGridConfig, config: GridConfig| #[trigger]
            config.is_view_of(grid) && is_grid_of_template(
                grid,
                list,
                template_rows(text),
                wanted,
                scorer,
            ) && are_retried::<D>(config, None, 100000);
        assert(is_list_of(list, word_list_content, None, max_shared_substring)
            && config.is_view_of(grid));
    }
}

/// Whatever is shown for a puzzle from a file is a solution of it.
pub proof fn lemma_file_shows_solution<S: FillScorer, D: SearchDriver>(
    grid_content: Seq<char>,
    word_list_content: Seq<char>,
    min_score: u16,
    max_shared_substring: Option<usize>,
    scorer: &S,
    shown: String,
)
    requires
        is_file_result::<S, D>(
            grid_content,
            word_list_content,
            min_score,
            max_shared_substring,
            scorer,
            Ok(shown),
        ),
        template_rows(normalized_grid(grid_content)).len() > 0,
        is_rectangle(
            template_rows(normalized_grid(grid_content)),
            template_rows(normalized_grid(grid_content))[0].len() as int,
        ),
    ensures
        shows_solution(
            template_rows(normalized_grid(grid_content)),
            usable_words(text_lines(word_list_content), min_score),
            max_shared_substring,
            shown@,
        ),
{
    lemma_said_shows::<S, D>(
        normalized_grid(grid_content),
        word_list_content,
        min_score,
        Some(longer_side(normalized_grid(grid_content))),
        max_shared_substring,
        scorer,
        false,
        shown,
    );
}

/// Whatever is shown for a puzzle from a web page is a solution of it, with the minimum score that was
/// given, or 50 if none was.
pub proof fn lemma_page_shows_solution<S: FillScorer, D: SearchDriver>(
    grid_content: Seq<char>,
    word_list_content: Seq<char>,
    min_score: Option<u16>,
    wanted: u16,
    max_shared_substring: Option<usize>,
    scorer: &S,
    shown: String,
)
    requires
        is_page_result::<S, D>(
            grid_content,
            word_list_content,
            min_score,
            max_shared_substring,
            scorer,
            Ok(shown),
        ),
        min_score == Some(wanted) || (min_score is None && wanted == 50),
        template_rows(normalized_page(grid_content)).len() > 0,
        is_rectangle(
            template_rows(normalized_page(grid_content)),
            template_rows(normalized_page(grid_content))[0].len() as int,
        ),
    ensures
        shows_solution(
            template_rows(normalized_page(grid_content)),
            usable_words(text_lines(word_list_content), wanted),
            max_shared_substring,
            shown@,
        ),
{
    lemma_said_shows::<S, D>(
        normalized_page(grid_content),
        word_list_content,
        wanted,
        None,
        max_shared_substring,
        scorer,
        true,
        shown,
    );
}

/// What is said if there is something wrong, in this order: the first thing that is wrong with the grid
/// or the limit, the lines of the word list that cannot be read, a word list without words that fit,
/// and a puzzle without a solution.
pub open spec fn is_complaint(
    text: Seq<char>,
    word_list_content: Seq<char>,
    min_score: u16,
    max_length: Option<usize>,
    max_shared_substring: Option<usize>,
    result: Result<String, String>,
) -> bool {
    let lines = text_lines(text);
    let listed = text_lines(word_list_content);
    let rows = template_rows(text);
    let is_even = forall|i: int|
        0 <= i < lines.len() ==> (#[trigger] lines[i]).len() == lines[0].len();
    let is_limit = max_shared_substring matches Some(limit) ==> 3 <= limit <= 10;
    let is_readable = forall|i: int| 0 <= i < listed.len() ==> !is_bad_line(#[trigger] listed[i]);
    let has_words = exists|i: int, word: Seq<char>, score: nat|
        0 <= i < listed.len() && #[trigger] lists(listed[i], word, score) && (max_length matches Some(
            max_length,
        ) ==> word.len() <= max_length);
    &&& lines.len() == 0 ==> (result matches Err(message) && message@
        == "Grid must have at least one row"@)
    &&& lines.len() > 0 && !is_even ==> (result matches Err(message) && message@
        == "Rows in grid must all be the same length"@)
    &&& lines.len() > 0 && is_even && !is_limit ==> (result matches Err(message) && message@
        == "If given, max shared substring must be between 3 and 10"@)
    &&& lines.len() > 0 && is_even && is_limit && !is_readable ==> (result matches Err(message)
        && message@ == combined_errors(line_errors(listed)))
    &&& lines.len() > 0 && is_even && is_limit && is_readable && !has_words ==> (
    result matches Err(message) && message@ == "Word list is empty"@)
    &&& lines.len() > 0 && is_even && is_limit && is_readable && has_words && listed.len()
        <= 0xffff_ffff && rows.len() > 0 && is_rectangle(rows, rows[0].len() as int) && (forall|
        solved: Seq<Seq<char>>,
    |
        !#[trigger] obeys_rules(
            rows,
            usable_words(listed, min_score),
            max_shared_substring,
            solved,
        )) ==> (result matches Err(message) && message@ == "Unfillable grid"@)
}

/// The first thing that is wrong is said.
proof fn lemma_said_complaint<S: FillScorer, D: SearchDriver>(
    text: Seq<char>,
    word_list_content: Seq<char>,
    min_score: u16,
    max_length: Option<usize>,
    max_shared_substring: Option<usize>,
    scorer: &S,
    limited: bool,
    result: Result<String, String>,
)
    requires
        is_said::<S, D>(
            text,
            word_list_content,
            min_score,
            max_length,
            max_shared_substring,
            scorer,
            limited,
            result,
        ),
    ensures
        is_complaint(
            text,
            word_list_content,
            min_score,
            max_length,
            max_shared_substring,
            result,
        ),
{
    let lines = text_lines(text);
    let listed = text_lines(word_list_content);
    let rows = template_rows(text);
    lemma_grid_error(lines, max_shared_substring);
    let bad = lemma_bad_lines_reported(listed);
    let is_readable = forall|i: int| 0 <= i < listed.len() ==> !is_bad_line(#[trigger] listed[i]);
    assert(is_readable == (bad.len() == 0)) by {
        if bad.len() > 0 {
            assert(bad.contains(bad[0]));
            assert(is_bad_line(listed[bad[0]]));
        }
    }
    if grid_error(lines, max_shared_substring) is None && is_readable {
        let (list, answer) = choose|list: WordList, answer: Result<Seq<char>, FillError>|
            #![trigger is_list_of(list, word_list_content, max_length, max_shared_substring), is_answer::<
                S,
                D,
            >(list, text, min_score, max_shared_substring, scorer, limited, answer)]
            {
                &&& is_list_of(list, word_list_content, max_length, max_shared_substring)
                &&& is_answer::<S, D>(
                    list,
                    text,
                    min_score,
                    max_shared_substring,
                    scorer,
                    limited,
                    answer,
                )
                &&& match (result, answer) {
                    (Ok(text), Ok(shown)) => text@ == shown,
                    (Err(message), Err(error)) => message@ == error.text(),
                    _ => false,
                }
            };
        let has_words = exists|i: int, word: Seq<char>, score: nat|
            0 <= i < listed.len() && #[trigger] lists(listed[i], word, score) && (
            max_length matches Some(max_length) ==> word.len() <= max_length);
        if has_words {
            let (i, word, score) = choose|i: int, word: Seq<char>, score: nat|
                0 <= i < listed.len() && #[trigger] lists(listed[i], word, score) && (
                max_length matches Some(max_length) ==> word.len() <= max_length);
            lemma_listed_somewhere(listed, max_length, i, word, score);
            assert(list.knows(word));
        } else {
            assert forall|id: GlobalWordId| !#[trigger] list.has_word(id) by {
                if list.has_word(id) {
                    let word = list.text(id);
                    let score = listed_score(listed, max_length, word)->Some_0;
                    lemma_listed_length(listed, max_length, word);
                    lemma_last_line_counts(listed, max_length, word, score);
                    let i = choose|i: int|
                        {
                            &&& 0 <= i < listed.len()
                            &&& lists(#[trigger] listed[i], word, score)
                            &&& forall|k: int, n: nat|
                                i < k < listed.len() ==> !#[trigger] lists(listed[k], word, n)
                        };
                    assert(lists(listed[i], word, score));
                }
            }
        }
        assert(has_no_words(list) == !has_words);
        if has_words && listed.len() <= 0xffff_ffff && rows.len() > 0 && is_rectangle(
            rows,
            rows[0].len() as int,
        ) {
            if result is Ok {
                lemma_said_shows::<S, D>(
                    text,
                    word_list_content,
                    min_score,
                    max_length,
                    max_shared_substring,
                    scorer,
                    limited,
                    result->Ok_0,
                );
            }
            if has_too_many_words(list) {
                let n = choose|n: int|
                    0 <= n < list.words@.len() && (#[trigger] list.words@[n])@.len() > u32::MAX;
                lemma_words_of_lines(list, word_list_content, max_length, max_shared_substring, n);
            }
            assert(is_template(rows)) by {
                assert forall|y: int| 0 <= y < rows.len() implies (#[trigger] rows[y]).len()
                    >= rows[0].len() by {}
            }
        }
    }
}

/// A word that some line lists has a score.
proof fn lemma_listed_somewhere(
    lines: Seq<Seq<char>>,
    max_length: Option<usize>,
    i: int,
    word: Seq<char>,
    score: nat,
)
    requires
        0 <= i < lines.len(),
        lists(lines[i], word, score),
        max_length matches Some(max_length) ==> word.len() <= max_length,
    ensures
        listed_score(lines, max_length, word) is Some,
    decreases lines.len(),
{
    if i == lines.len() - 1 {
        lemma_line_lists(lines.last(), max_length, word, score);
    } else {
        assert(lines.drop_last()[i] == lines[i]);
        lemma_listed_somewhere(lines.drop_last(), max_length, i, word, score);
    }
}

/// Of a puzzle from a file, the first thing that is wrong is said.
pub proof fn lemma_file_complaint<S: FillScorer, D: SearchDriver>(
    grid_content: Seq<char>,
    word_list_content: Seq<char>,
    min_score: u16,
    max_shared_substring: Option<usize>,
    scorer: &S,
    result: Result<String, String>,
)
    requires
        is_file_result::<S, D>(
            grid_content,
            word_list_content,
            min_score,
            max_shared_substring,
            scorer,
            result,
        ),
    ensures
        is_complaint(
            normalized_grid(grid_content),
            word_list_content,
            min_score,
            Some(longer_side(normalized_grid(grid_content))),
            max_shared_substring,
            result,
        ),
{
    lemma_said_complaint::<S, D>(
        normalized_grid(grid_content),
        word_list_content,
        min_score,
        Some(longer_side(normalized_grid(grid_content))),
        max_shared_substring,
        scorer,
        false,
        result,
    );
}

/// Of a puzzle from a web page, the first thing that is wrong is said. Words of any length count.
pub proof fn lemma_page_complaint<S: FillScorer, D: SearchDriver>(
    grid_content: Seq<char>,
    word_list_content: Seq<char>,
    min_score: Option<u16>,
    wanted: u16,
    max_shared_substring: Option<usize>,
    scorer: &S,
    result: Result<String, String>,
)
    requires
        is_page_result::<S, D>(
            grid_content,
            word_list_content,
            min_score,
            max_shared_substring,
            scorer,
            result,
        ),
        min_score == Some(wanted) || (min_score is None && wanted == 50),
    ensures
        is_complaint(
            normalized_page(grid_content),
            word_list_content,
            wanted,
            None,
            max_shared_substring,
            result,
        ),
{
    lemma_said_complaint::<S, D>(
        normalized_page(grid_content),
        word_list_content,
        wanted,
        None,
        max_shared_substring,
        scorer,
        true,
        result,
    );
}

/// The lines of a grid from a file are each trimmed, taken in lowercase and composed, and each is
/// followed by a line break.
pub proof fn lemma_grid_normalized(content: Seq<char>)
    requires
        text_lines(trimmed(content)).len() > 0,
    ensures
        ({
            let lines = text_lines(trimmed(content));
            normalized_grid(content) == broken(
                lines.map_values(
                    |line: Seq<char>| nfc_of(lowercase_text_of(trimmed(line))),
                ),
                lines.map_values(|line: Seq<char>| seq!['\n']),
            )
        }),
{
    lemma_lines_normalized(text_lines(trimmed(content)));
}

/// Each line is normalized by itself.
proof fn lemma_lines_normalized(lines: Seq<Seq<char>>)
    ensures
        normalized_lines(lines) == broken(
            lines.map_values(|line: Seq<char>| nfc_of(lowercase_text_of(trimmed(line)))),
            lines.map_values(|line: Seq<char>| seq!['\n']),
        ),
    decreases lines.len(),
{
    let texts = lines.map_values(|line: Seq<char>| nfc_of(lowercase_text_of(trimmed(line))));
    let breaks = lines.map_values(|line: Seq<char>| seq!['\n']);
    if lines.len() > 0 {
        let front = lines.drop_last();
        lemma_lines_normalized(front);
        assert(texts.drop_last() =~= front.map_values(
            |line: Seq<char>| nfc_of(lowercase_text_of(trimmed(line))),
        ));
        assert(breaks.drop_last() =~= front.map_values(|line: Seq<char>| seq!['\n']));
        assert(normalized_lines(lines) =~= broken(texts, breaks));
    } else {
        assert(normalized_lines(lines) =~= broken(texts, breaks));
    }
}

/// A grid from a web page is trimmed, decomposed and taken in lowercase as a whole. White space around
/// it makes no difference.
pub proof fn lemma_page_normalized(content: Seq<char>, other: Seq<char>)
    requires
        trimmed(content) == trimmed(other),
    ensures
        normalized_page(content) == normalized_page(other),
        normalized_page(content) == lowercase_text_of(nfkd_of(trimmed(content))),
{
}

} // verus!
