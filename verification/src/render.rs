//! Showing filled grids as text.

use crate::backtracking_search::{is_complete_fill, words_of};
use crate::grid_config::{Choice, GridConfig, OwnedGridConfig, SlotConfig, SlotSpec};
use crate::grid_setup::{
    are_contents, flattened, is_blank, is_grid_of, is_grid_of_template, lowercase_of,
};
use crate::grid_template::{
    are_template_slots, is_template, is_template_slot, lemma_template_planar, lemma_template_slots,
};
use crate::option_order::FillScorer;
use crate::slot_layout::{is_crossing, is_slot_config, location, shares};
use crate::text::text_of;
use crate::types::GlyphId;
use crate::word_list::{Word, WordList};
use vstd::prelude::*;

verus! {

/// The characters that are in the grid before filling.
pub open spec fn given_cells(config: GridConfig) -> Seq<Option<char>> {
    config.fill@.map_values(
        |cell: Option<GlyphId>|
            match cell {
                Some(glyph) => Some(config.word_list.glyphs@[glyph as int]),
                None => None,
            },
    )
}

/// The character that a choice puts into a cell of its slot.
pub open spec fn chosen_char(config: GridConfig, choice: Choice, c: int) -> char {
    config.word_list.glyphs@[config.glyph(choice.slot_id as int, choice.word_id, c) as int]
}

/// The grid after the first `n` cells of a choice were written into it.
pub open spec fn with_cells(
    config: GridConfig,
    cells: Seq<Option<char>>,
    choice: Choice,
    n: int,
) -> Seq<Option<char>>
    decreases n,
{
    if n <= 0 {
        cells
    } else {
        with_cells(config, cells, choice, n - 1).update(
            config.slot_configs@[choice.slot_id as int].fill_index(n - 1, config.width as int),
            Some(chosen_char(config, choice, n - 1)),
        )
    }
}

/// The grid after choices were written into it, one after the other.
pub open spec fn with_choices(config: GridConfig, choices: Seq<Choice>) -> Seq<Option<char>>
    decreases choices.len(),
{
    if choices.len() == 0 {
        given_cells(config)
    } else {
        let choice = choices.last();
        with_cells(
            config,
            with_choices(config, choices.drop_last()),
            choice,
            config.slot_length(choice.slot_id as int),
        )
    }
}

/// The first `n` cells as text, with a line break before each row but the first.
pub open spec fn cells_text(cells: Seq<Option<char>>, width: int, n: int) -> Seq<char>
    decreases n,
{
    if n <= 0 {
        Seq::empty()
    } else {
        let earlier = cells_text(cells, width, n - 1);
        let line = if n > 1 && (n - 1) % width == 0 {
            earlier.push('\n')
        } else {
            earlier
        };
        line.push(
            match cells[n - 1] {
                Some(ch) => ch,
                None => '.',
            },
        )
    }
}

/// The choices can be shown: their words are in the list and their cells in the grid.
pub open spec fn is_showable(config: GridConfig, choices: Seq<Choice>) -> bool {
    &&& forall|i: int|
        0 <= i < config.fill@.len() ==> match #[trigger] config.fill@[i] {
            Some(glyph) => glyph < config.word_list.glyphs@.len(),
            None => true,
        }
    &&& forall|k: int|
        0 <= k < choices.len() ==> {
            let slot_id = (#[trigger] choices[k]).slot_id;
            let slot = config.slot_configs@[slot_id as int];
            &&& slot_id < config.slot_configs@.len()
            &&& slot.fits(config.fill@.len() as int, config.width as int)
            &&& config.word_list.has_word((slot.length, choices[k].word_id))
            &&& config.word_list.word_wf(
                slot.length as int,
                config.word_list.word((slot.length, choices[k].word_id)),
            )
        }
}

/// The number of cells stays the same.
proof fn lemma_with_cells_length(
    config: GridConfig,
    cells: Seq<Option<char>>,
    choice: Choice,
    n: int,
)
    requires
        n <= config.slot_length(choice.slot_id as int),
        config.slot_configs@[choice.slot_id as int].fits(
            cells.len() as int,
            config.width as int,
        ),
    ensures
        with_cells(config, cells, choice, n).len() == cells.len(),
    decreases n,
{
    if n > 0 {
        lemma_with_cells_length(config, cells, choice, n - 1);
    }
}

/// The grid before filling.
fn start_cells(config: &GridConfig) -> (cells: Vec<Option<char>>)
    requires
        forall|i: int|
            0 <= i < config.fill@.len() ==> match #[trigger] config.fill@[i] {
                Some(glyph) => glyph < config.word_list.glyphs@.len(),
                None => true,
            },
    ensures
        cells@ == given_cells(*config),
{
    let mut cells: Vec<Option<char>> = Vec::new();
    let mut i: usize = 0;
    while i < config.fill.len()
        invariant
            forall|i: int|
                0 <= i < config.fill@.len() ==> match #[trigger] config.fill@[i] {
                    Some(glyph) => glyph < config.word_list.glyphs@.len(),
                    None => true,
                },
            0 <= i <= config.fill@.len(),
            cells@ == given_cells(*config).take(i as int),
        decreases config.fill@.len() - i,
    {
        let cell: Option<char> = match config.fill[i] {
            Some(glyph) => {
                assert(config.fill@[i as int] == Some(glyph));
                Some(config.word_list.glyphs[glyph])
            },
            None => None,
        };
        cells.push(cell);
        i = i + 1;
        assert(cells@ =~= given_cells(*config).take(i as int));
    }
    assert(cells@ =~= given_cells(*config));
    cells
}

/// Turn the given grid config and fill choices into a rendered string.
pub fn render_grid(config: &GridConfig, choices: &[Choice]) -> (text: String)
    requires
        config.width > 0,
        is_showable(*config, choices@),
    ensures
        text@ == cells_text(
            with_choices(*config, choices@),
            config.width as int,
            config.fill@.len() as int,
        ),
{
    let mut cells: Vec<Option<char>> = start_cells(config);
    let mut k: usize = 0;
    proof {
        assert(choices@.take(0) =~= Seq::empty());
    }
    while k < choices.len()
        invariant
            is_showable(*config, choices@),
            0 <= k <= choices@.len(),
            cells@ == with_choices(*config, choices@.take(k as int)),
            cells@.len() == config.fill@.len(),
        decreases choices@.len() - k,
    {
        let choice: Choice = choices[k];
        let ghost before = cells@;
        assert(choices@[k as int] == choice);
        let slot_config: &SlotConfig = &config.slot_configs[choice.slot_id];
        let word: &Word = &config.word_list.words[slot_config.length][choice.word_id];
        proof {
            let length = config.fill.len();
            assert forall|c: int| 0 <= c < slot_config.length implies 0
                <= #[trigger] slot_config.fill_index(c, config.width as int) < usize::MAX + 1 by {}
        }
        let indices: Vec<usize> = slot_config.cell_fill_indices(config.width);
        let mut c: usize = 0;
        while c < indices.len()
            invariant
                choice == choices@[k as int],
                choice.slot_id < config.slot_configs@.len(),
                slot_config == config.slot_configs@[choice.slot_id as int],
                slot_config.fits(before.len() as int, config.width as int),
                word == config.word_list.word((slot_config.length, choice.word_id)),
                config.word_list.word_wf(slot_config.length as int, *word),
                indices@.len() == slot_config.length,
                forall|m: int|
                    0 <= m < indices@.len() ==> #[trigger] indices@[m] == slot_config.fill_index(
                        m,
                        config.width as int,
                    ),
                0 <= c <= indices@.len(),
                cells@.len() == before.len(),
                cells@ == with_cells(*config, before, choice, c as int),
            decreases indices@.len() - c,
        {
            let glyph: GlyphId = word.glyphs[c];
            let index: usize = indices[c];
            cells.set(index, Some(config.word_list.glyphs[glyph]));
            c = c + 1;
        }
        proof {
            assert(choices@.take(k + 1).drop_last() =~= choices@.take(k as int));
            assert(choices@.take(k + 1).last() == choice);
        }
        k = k + 1;
    }
    assert(choices@.take(k as int) =~= choices@);
    let mut chars: Vec<char> = Vec::new();
    let mut i: usize = 0;
    while i < cells.len()
        invariant
            config.width > 0,
            0 <= i <= cells@.len(),
            chars@ == cells_text(cells@, config.width as int, i as int),
        decreases cells@.len() - i,
    {
        if i > 0 && i % config.width == 0 {
            chars.push('\n');
        }
        chars.push(
            match cells[i] {
                Some(ch) => ch,
                None => '.',
            },
        );
        i = i + 1;
    }
    text_of(chars.as_slice())
}

/// Wherever entries have a cell in common, a crossing is recorded.
pub open spec fn overlaps_recorded(config: GridConfig) -> bool {
    forall|s: int, c: int, t: int, d: int|
        #![trigger config.slot_configs@[s].fill_index(c, config.width as int), config.slot_configs@[t].fill_index(d, config.width as int)]
        0 <= s < config.slot_count() && 0 <= c < config.slot_length(s) && 0 <= t
            < config.slot_count() && 0 <= d < config.slot_length(t)
            && config.slot_configs@[s].fill_index(c, config.width as int)
            == config.slot_configs@[t].fill_index(d, config.width as int) ==> (s == t && c == d)
            || config.crosses(s, c, t, d)
}

/// Writing a choice changes the cells of its slot and no others.
proof fn lemma_with_cells(
    config: GridConfig,
    cells: Seq<Option<char>>,
    choice: Choice,
    n: int,
    c: int,
    index: int,
)
    requires
        overlaps_recorded(config),
        config.wf(),
        choice.slot_id < config.slot_count(),
        0 <= n <= config.slot_length(choice.slot_id as int),
        cells.len() == config.fill@.len(),
        0 <= index < cells.len(),
    ensures
        with_cells(config, cells, choice, n).len() == cells.len(),
        0 <= c < n && index == config.slot_configs@[choice.slot_id as int].fill_index(
            c,
            config.width as int,
        ) ==> with_cells(config, cells, choice, n)[index] == Some(chosen_char(config, choice, c)),
        (forall|m: int|
            0 <= m < n ==> #[trigger] config.slot_configs@[choice.slot_id as int].fill_index(
                m,
                config.width as int,
            ) != index) ==> with_cells(config, cells, choice, n)[index] == cells[index],
    decreases n,
{
    let slot = config.slot_configs@[choice.slot_id as int];
    assert(config.slot_wf(choice.slot_id as int));
    if n > 0 {
        let width = config.width as int;
        lemma_with_cells(config, cells, choice, n - 1, c, index);
        let last = slot.fill_index(n - 1, width);
        if 0 <= c < n && index == slot.fill_index(c, width) && last == index {
            let s = choice.slot_id as int;
            if c != n - 1 {
                assert(config.crosses(s, c, s, n - 1));
                let crossing = config.slot_configs@[s].crossings@[c];
                assert(config.crossing_wf(s, c, crossing->Some_0));
            }
        }
    }
}

/// When choices that are a fill are shown, every cell of every slot whose choice was written shows
/// the letter that its word has there.
proof fn lemma_shows_written(config: GridConfig, choices: Seq<Choice>, n: int, s: int, c: int)
    requires
        config.wf(),
        overlaps_recorded(config),
        is_complete_fill(config, choices),
        0 <= s < n <= choices.len(),
        0 <= c < config.slot_length(s),
    ensures
        with_choices(config, choices.take(n)).len() == config.fill@.len(),
        with_choices(config, choices.take(n))[config.slot_configs@[s].fill_index(
            c,
            config.width as int,
        )] == Some(chosen_char(config, choices[s], c)),
    decreases n,
{
    let width = config.width as int;
    let index = config.slot_configs@[s].fill_index(c, width);
    let words = words_of(choices);
    let last = choices[n - 1];
    let t = n - 1;
    assert(config.slot_wf(s));
    assert(config.slot_wf(t));
    assert(choices.take(n).drop_last() =~= choices.take(n - 1));
    assert(choices.take(n).last() == last);
    assert(last.slot_id == t && choices[s].slot_id == s);
    let before = with_choices(config, choices.take(n - 1));
    lemma_cell_count(config, choices, n - 1);
    let slot = config.slot_configs@[t];
    if exists|m: int|
        0 <= m < config.slot_length(t) && #[trigger] slot.fill_index(m, width) == index {
        let m = choose|m: int|
            0 <= m < config.slot_length(t) && #[trigger] slot.fill_index(m, width) == index;
        lemma_with_cells(config, before, last, config.slot_length(t), m, index);
        if s == t && c == m {
        } else {
            assert(config.crosses(s, c, t, m));
            assert(config.glyph(s, words[s], c) == config.glyph(t, words[t], m));
            assert(words[s] == choices[s].word_id && words[t] == last.word_id);
        }
    } else {
        if s == t {
            assert(slot.fill_index(c, width) == index);
        }
        lemma_with_cells(config, before, last, config.slot_length(t), c, index);
        lemma_shows_written(config, choices, n - 1, s, c);
    }
}

/// Writing choices into a grid keeps the number of cells.
pub proof fn lemma_cell_count(config: GridConfig, choices: Seq<Choice>, n: int)
    requires
        config.wf(),
        is_complete_fill(config, choices),
        0 <= n <= choices.len(),
    ensures
        with_choices(config, choices.take(n)).len() == config.fill@.len(),
    decreases n,
{
    if n > 0 {
        lemma_cell_count(config, choices, n - 1);
        assert(choices.take(n).drop_last() =~= choices.take(n - 1));
        assert(choices[n - 1].slot_id == n - 1);
        assert(config.slot_wf(n - 1));
        lemma_with_cells_length(
            config,
            with_choices(config, choices.take(n - 1)),
            choices[n - 1],
            config.slot_length(n - 1),
        );
    }
}

/// When a fill is shown, every cell of every slot shows the letter that the slot's word has there.
pub proof fn lemma_shows_fill(config: GridConfig, choices: Seq<Choice>, s: int, c: int)
    requires
        config.wf(),
        overlaps_recorded(config),
        is_complete_fill(config, choices),
        0 <= s < choices.len(),
        0 <= c < config.slot_length(s),
    ensures
        with_choices(config, choices)[config.slot_configs@[s].fill_index(
            c,
            config.width as int,
        )] == Some(chosen_char(config, choices[s], c)),
{
    lemma_shows_written(config, choices, choices.len() as int, s, c);
    assert(choices.take(choices.len() as int) =~= choices);
}

/// The choices of a fill can be shown, if the glyphs in the grid are known.
pub proof fn lemma_fill_showable(config: GridConfig, choices: Seq<Choice>)
    requires
        config.wf(),
        is_complete_fill(config, choices),
        forall|i: int|
            0 <= i < config.fill@.len() ==> match #[trigger] config.fill@[i] {
                Some(glyph) => glyph < config.word_list.glyphs@.len(),
                None => true,
            },
    ensures
        is_showable(config, choices),
{
    let words = words_of(choices);
    assert forall|k: int| 0 <= k < choices.len() implies {
        let slot_id = (#[trigger] choices[k]).slot_id;
        let slot = config.slot_configs@[slot_id as int];
        &&& slot_id < config.slot_configs@.len()
        &&& slot.fits(config.fill@.len() as int, config.width as int)
        &&& config.word_list.has_word((slot.length, choices[k].word_id))
        &&& config.word_list.word_wf(
            slot.length as int,
            config.word_list.word((slot.length, choices[k].word_id)),
        )
    } by {
        assert(config.slot_wf(k));
        let options = config.options(k);
        assert(options.contains(words[k]));
        assert(options[options.index_of(words[k])] == choices[k].word_id);
    }
}

/// Cells whose columns are within the width have different places in a flat array.
proof fn lemma_flat_injective(x: int, y: int, u: int, v: int, width: int)
    requires
        0 <= x < width,
        0 <= u < width,
        x + y * width == u + v * width,
    ensures
        x == u,
        y == v,
{
    assert(y == v) by (nonlinear_arith)
        requires
            0 <= x < width,
            0 <= u < width,
            x + y * width == u + v * width,
    ;
}

/// In a grid that was generated from the slots of a template whose rows all have the same length, a
/// crossing is recorded wherever entries have a cell in common.
pub proof fn lemma_overlaps_recorded(
    config: GridConfig,
    rows: Seq<Seq<char>>,
    slots: Seq<SlotSpec>,
)
    requires
        is_template(rows),
        forall|y: int| 0 <= y < rows.len() ==> (#[trigger] rows[y]).len() == rows[0].len(),
        are_template_slots(rows, slots),
        config.width == rows[0].len(),
        config.slot_configs@.len() == slots.len(),
        forall|e: int|
            0 <= e < slots.len() ==> is_slot_config(slots, e, #[trigger] config.slot_configs@[e]),
    ensures
        overlaps_recorded(config),
{
    let width = config.width as int;
    lemma_template_slots(rows, slots);
    lemma_template_planar(rows, slots);
    assert forall|s: int, c: int, t: int, d: int|
        #![trigger config.slot_configs@[s].fill_index(c, width), config.slot_configs@[t].fill_index(d, width)]
        0 <= s < config.slot_count() && 0 <= c < config.slot_length(s) && 0 <= t
            < config.slot_count() && 0 <= d < config.slot_length(t)
            && config.slot_configs@[s].fill_index(c, width)
            == config.slot_configs@[t].fill_index(d, width) implies (s == t && c == d)
        || config.crosses(s, c, t, d) by {
        assert(is_slot_config(slots, s, config.slot_configs@[s]));
        assert(is_slot_config(slots, t, config.slot_configs@[t]));
        assert(config.slot_configs@[s].identity() == slots[s]);
        assert(config.slot_configs@[t].identity() == slots[t]);
        assert(slots.contains(slots[s]) && slots.contains(slots[t]));
        assert(is_template_slot(rows, slots[s]) && is_template_slot(rows, slots[t]));
        let here = location(slots, s, c);
        let there = location(slots, t, d);
        assert(config.slot_configs@[s].cell(c) == here);
        assert(config.slot_configs@[t].cell(d) == there);
        lemma_flat_injective(here.0, here.1, there.0, there.1, width);
        if s != t {
            assert(shares(slots, s, c, t, d));
            let crossing = config.slot_configs@[s].crossings@[c];
            assert(is_crossing(slots, s, c, crossing));
            assert(crossing is Some);
            assert(shares(
                slots,
                s,
                c,
                crossing->Some_0.other_slot_id as int,
                crossing->Some_0.other_slot_cell as int,
            ));
        }
    }
}

/// What a cell of a template shows before filling: a letter in lowercase, or a dot.
pub open spec fn shown_char(cell: char) -> char {
    if is_blank(cell) {
        '.'
    } else {
        lowercase_of(cell)[0]
    }
}

/// What a row of a template shows before filling.
pub open spec fn shown_row(row: Seq<char>) -> Seq<char> {
    row.map_values(|cell: char| shown_char(cell))
}

/// What the rows of a template show before filling, separated by line breaks.
pub open spec fn shown_rows(rows: Seq<Seq<char>>) -> Seq<char>
    decreases rows.len(),
{
    if rows.len() == 0 {
        Seq::empty()
    } else if rows.len() == 1 {
        shown_row(rows[0])
    } else {
        shown_rows(rows.drop_last()).push('\n') + shown_row(rows.last())
    }
}

/// All rows have a width.
pub open spec fn is_rectangle(rows: Seq<Seq<char>>, width: int) -> bool {
    forall|y: int| 0 <= y < rows.len() ==> (#[trigger] rows[y]).len() == width
}

/// Where the cells of a rectangle are among all cells.
pub proof fn lemma_flattened_cell(rows: Seq<Seq<char>>, width: int, y: int, x: int)
    requires
        is_rectangle(rows, width),
        0 <= y < rows.len(),
        0 <= x < width,
    ensures
        0 <= y * width + x < flattened(rows).len(),
        flattened(rows)[y * width + x] == rows[y][x],
    decreases rows.len(),
{
    let front = rows.drop_last();
    assert forall|k: int| 0 <= k < front.len() implies (#[trigger] front[k]).len() == width by {
        assert(front[k] == rows[k]);
    }
    lemma_flattened_size(front, width);
    assert(y * width >= 0) by (nonlinear_arith)
        requires
            y >= 0,
            width >= 0,
    ;
    if y < front.len() {
        assert(front[y] == rows[y]);
        lemma_flattened_cell(front, width, y, x);
    } else {
        assert(rows.last() == rows[y]);
    }
}

/// How many cells a rectangle has.
pub proof fn lemma_flattened_size(rows: Seq<Seq<char>>, width: int)
    requires
        is_rectangle(rows, width),
    ensures
        flattened(rows).len() == rows.len() * width,
    decreases rows.len(),
{
    if rows.len() > 0 {
        let front = rows.drop_last();
        assert forall|k: int| 0 <= k < front.len() implies (#[trigger] front[k]).len() == width by {
            assert(front[k] == rows[k]);
        }
        lemma_flattened_size(front, width);
        assert(rows.last() == rows[rows.len() - 1]);
        let n = rows.len() as int;
        assert((n - 1) * width + width == n * width) by (nonlinear_arith);
    } else {
        assert(rows.len() * width == 0) by (nonlinear_arith)
            requires
                rows.len() == 0,
        ;
    }
}

/// The cells show what the template does.
spec fn cells_show(cells: Seq<Option<char>>, flat: Seq<char>) -> bool {
    &&& cells.len() == flat.len()
    &&& forall|i: int|
        0 <= i < cells.len() ==> shown_char(flat[i]) == match #[trigger] cells[i] {
            Some(ch) => ch,
            None => '.',
        }
}

/// The text of the first rows and a part of the next one.
proof fn lemma_text_of_rows(
    cells: Seq<Option<char>>,
    rows: Seq<Seq<char>>,
    width: int,
    y: int,
    x: int,
)
    requires
        width > 0,
        is_rectangle(rows, width),
        cells_show(cells, flattened(rows)),
        0 <= y < rows.len(),
        0 < x <= width,
    ensures
        cells_text(cells, width, y * width + x) == (if y == 0 {
            Seq::empty()
        } else {
            shown_rows(rows.take(y)).push('\n')
        }) + shown_row(rows[y]).take(x),
    decreases y, x,
{
    let n = y * width + x;
    let head: Seq<char> = if y == 0 {
        Seq::empty()
    } else {
        shown_rows(rows.take(y)).push('\n')
    };
    assert(y * width >= 0) by (nonlinear_arith)
        requires
            y >= 0,
            width > 0,
    ;
    lemma_flattened_cell(rows, width, y, x - 1);
    assert(shown_row(rows[y])[x - 1] == shown_char(flattened(rows)[n - 1]));
    assert(cells[n - 1] == cells[n - 1]);
    if x > 1 {
        lemma_text_of_rows(cells, rows, width, y, x - 1);
        assert((n - 1) % width == x - 1) by (nonlinear_arith)
            requires
                n - 1 == y * width + (x - 1),
                0 <= x - 1 < width,
        ;
        assert(head + shown_row(rows[y]).take(x) =~= (head + shown_row(rows[y]).take(x - 1)).push(
            shown_row(rows[y])[x - 1],
        ));
    } else {
        assert(shown_row(rows[y]).take(1) =~= seq![shown_row(rows[y])[0]]);
        if y == 0 {
            assert(n == 1) by (nonlinear_arith)
                requires
                    n == y * width + x,
                    y == 0,
                    x == 1,
            ;
            assert(cells_text(cells, width, 0) =~= Seq::empty());
            assert(cells_text(cells, width, 1) =~= head + shown_row(rows[y]).take(1));
        } else {
            assert((n - 1) % width == 0) by (nonlinear_arith)
                requires
                    n - 1 == y * width,
                    width > 0,
            ;
            assert(n - 1 == (y - 1) * width + width) by (nonlinear_arith)
                requires
                    n - 1 == y * width,
            ;
            lemma_text_of_rows(cells, rows, width, y - 1, width);
            assert(rows[y - 1].len() == width);
            assert(shown_row(rows[y - 1]).take(width) =~= shown_row(rows[y - 1]));
            assert(rows.take(y).drop_last() =~= rows.take(y - 1));
            assert(rows.take(y).last() == rows[y - 1]);
            if y == 1 {
                assert(Seq::<char>::empty() + shown_row(rows[0]) =~= shown_row(rows[0]));
                assert(rows.take(1)[0] == rows[0]);
            }
            assert(cells_text(cells, width, n - 1) == shown_rows(rows.take(y)));
            assert(n > 1) by (nonlinear_arith)
                requires
                    n - 1 == y * width,
                    y > 0,
                    width > 0,
            ;
            assert(cells_text(cells, width, n) =~= head + shown_row(rows[y]).take(1));
        }
    }
}

/// A grid that was generated from a template whose rows all have the same length, and not filled yet,
/// shows the rows of the template, with letters in lowercase and blocks like empty cells.
pub proof fn lemma_shows_template<S: FillScorer>(
    grid: OwnedGridConfig,
    config: GridConfig,
    word_list: WordList,
    rows: Seq<Seq<char>>,
    min_score: u16,
    scorer: &S,
)
    requires
        is_template(rows),
        is_rectangle(rows, rows[0].len() as int),
        rows[0].len() > 0,
        is_grid_of_template(grid, word_list, rows, min_score, scorer),
        config.is_view_of(grid),
    ensures
        is_showable(config, Seq::empty()),
        cells_text(
            with_choices(config, Seq::empty()),
            config.width as int,
            config.fill@.len() as int,
        ) == shown_rows(rows),
{
    let (slots, raw_fill) = choose|slots: Seq<SlotSpec>, raw_fill: Seq<Option<String>>|
        #![trigger are_template_slots(rows, slots), are_contents(flattened(rows), raw_fill)]
        are_template_slots(rows, slots) && are_contents(flattened(rows), raw_fill) && is_grid_of(
            grid,
            word_list,
            slots,
            raw_fill,
            min_score,
            scorer,
        );
    let cells = given_cells(config);
    let flat = flattened(rows);
    assert forall|i: int| 0 <= i < config.fill@.len() implies match #[trigger] config.fill@[i] {
        Some(glyph) => glyph < config.word_list.glyphs@.len(),
        None => true,
    } by {
        assert(grid.fill@[i] == config.fill@[i]);
    }
    assert forall|i: int| 0 <= i < cells.len() implies shown_char(flat[i]) == match #[trigger] cells[i] {
        Some(ch) => ch,
        None => '.',
    } by {
        assert(grid.fill@[i] == config.fill@[i]);
        match (grid.fill@[i], raw_fill[i]) {
            (Some(_), Some(text)) => {
                assert(text@ == lowercase_of(flat[i]));
            },
            _ => {
                assert(raw_fill[i] is None);
            },
        }
    }
    let width = rows[0].len() as int;
    let last = rows.len() - 1;
    lemma_flattened_size(rows, width);
    lemma_text_of_rows(cells, rows, width, last, width);
    assert(last * width + width == rows.len() * width) by (nonlinear_arith)
        requires
            last == rows.len() - 1,
    ;
    assert(rows[last].len() == width);
    assert(shown_row(rows[last]).take(width) =~= shown_row(rows[last]));
    assert(rows.take(last) =~= rows.drop_last());
    if last == 0 {
        assert(Seq::<char>::empty() + shown_row(rows[0]) =~= shown_row(rows[0]));
    }
}

/// Where the cell in a row and column is shown in a text, if each row is as long as the grid is wide
/// and followed by a line break.
pub open spec fn shown_at(width: int, y: int, x: int) -> int {
    y * (width + 1) + x
}

/// The text shows the letters of the rows, with a line break between one row and the next.
pub open spec fn is_picture(letters: Seq<Seq<char>>, width: int, text: Seq<char>) -> bool {
    &&& text.len() == shown_at(width, letters.len() - 1, width)
    &&& forall|y: int, x: int|
        0 <= y < letters.len() && 0 <= x < width ==> text[#[trigger] shown_at(width, y, x)]
            == letters[y][x]
    &&& forall|y: int|
        0 <= y < letters.len() - 1 ==> text[#[trigger] shown_at(width, y, width)] == '\n'
}

/// The text of cells shows the first cells row by row.
proof fn lemma_cells_picture(cells: Seq<Option<char>>, width: int, y: int, x: int)
    requires
        width > 0,
        0 <= y,
        0 < x <= width,
    ensures
        cells_text(cells, width, y * width + x).len() == shown_at(width, y, x),
        forall|v: int, u: int|
            0 <= v && 0 <= u < width && (v < y || (v == y && u < x)) ==> cells_text(
                cells,
                width,
                y * width + x,
            )[#[trigger] shown_at(width, v, u)] == match cells[v * width + u] {
                Some(ch) => ch,
                None => '.',
            },
        forall|v: int|
            0 <= v < y ==> cells_text(cells, width, y * width + x)[#[trigger] shown_at(
                width,
                v,
                width,
            )] == '\n',
    decreases y, x,
{
    let n = y * width + x;
    let text = cells_text(cells, width, n);
    assert(y * width >= 0) by (nonlinear_arith)
        requires
            y >= 0,
            width > 0,
    ;
    if x > 1 {
        lemma_cells_picture(cells, width, y, x - 1);
        assert((n - 1) % width == x - 1) by (nonlinear_arith)
            requires
                n - 1 == y * width + (x - 1),
                0 <= x - 1 < width,
        ;
        let before = cells_text(cells, width, n - 1);
        assert(text.len() == before.len() + 1);
        assert forall|v: int, u: int|
            0 <= v && 0 <= u < width && (v < y || (v == y && u < x)) implies text[#[trigger] shown_at(
            width,
            v,
            u,
        )] == match cells[v * width + u] {
            Some(ch) => ch,
            None => '.',
        } by {
            lemma_shown_before(width, v, u, y, x);
            if v == y && u == x - 1 {
            } else {
                assert(before[shown_at(width, v, u)] == text[shown_at(width, v, u)]) by {
                    lemma_shown_before(width, v, u, y, x - 1);
                }
            }
        }
        assert forall|v: int| 0 <= v < y implies text[#[trigger] shown_at(width, v, width)] == '\n' by {
            lemma_break_before(width, v, y, x - 1);
            assert(before[shown_at(width, v, width)] == text[shown_at(width, v, width)]);
        }
    } else if y == 0 {
        assert(n == 1) by (nonlinear_arith)
            requires
                n == y * width + x,
                y == 0,
                x == 1,
        ;
        assert(cells_text(cells, width, 0) =~= Seq::empty());
        assert(shown_at(width, 0, 1) == 1) by (nonlinear_arith);
        assert forall|v: int, u: int|
            0 <= v && 0 <= u < width && (v < y || (v == y && u < x)) implies text[#[trigger] shown_at(
            width,
            v,
            u,
        )] == match cells[v * width + u] {
            Some(ch) => ch,
            None => '.',
        } by {
            assert(shown_at(width, 0, 0) == 0) by (nonlinear_arith);
            assert(0 * width + 0 == 0) by (nonlinear_arith);
        }
    } else {
        assert((n - 1) % width == 0) by (nonlinear_arith)
            requires
                n - 1 == y * width,
                width > 0,
        ;
        assert(n - 1 == (y - 1) * width + width) by (nonlinear_arith)
            requires
                n - 1 == y * width,
        ;
        assert(n > 1) by (nonlinear_arith)
            requires
                n - 1 == y * width,
                y > 0,
                width > 0,
        ;
        lemma_cells_picture(cells, width, y - 1, width);
        let before = cells_text(cells, width, n - 1);
        assert(shown_at(width, y, 0) == shown_at(width, y - 1, width) + 1) by (nonlinear_arith);
        assert(shown_at(width, y, 1) == shown_at(width, y, 0) + 1);
        assert(text.len() == before.len() + 2);
        assert forall|v: int, u: int|
            0 <= v && 0 <= u < width && (v < y || (v == y && u < x)) implies text[#[trigger] shown_at(
            width,
            v,
            u,
        )] == match cells[v * width + u] {
            Some(ch) => ch,
            None => '.',
        } by {
            if v < y {
                lemma_shown_before(width, v, u, y - 1, width);
                assert(before[shown_at(width, v, u)] == text[shown_at(width, v, u)]);
            }
        }
        assert forall|v: int| 0 <= v < y implies text[#[trigger] shown_at(width, v, width)] == '\n' by {
            if v < y - 1 {
                lemma_break_before(width, v, y - 1, width);
                assert(before[shown_at(width, v, width)] == text[shown_at(width, v, width)]);
            }
        }
    }
}

/// Cells are shown in order.
proof fn lemma_shown_before(width: int, v: int, u: int, y: int, x: int)
    requires
        0 <= v,
        0 <= u < width,
        0 < x <= width,
        v < y || (v == y && u < x),
    ensures
        0 <= shown_at(width, v, u) < shown_at(width, y, x),
{
    assert(0 <= v * (width + 1)) by (nonlinear_arith)
        requires
            0 <= v,
            0 < width,
    ;
    if v < y {
        assert(v * (width + 1) + (width + 1) <= y * (width + 1)) by (nonlinear_arith)
            requires
                v + 1 <= y,
                0 < width,
        ;
    }
}

/// A line break comes before the rows below it.
proof fn lemma_break_before(width: int, v: int, y: int, x: int)
    requires
        0 <= v < y,
        0 < width,
        0 < x <= width,
    ensures
        0 <= shown_at(width, v, width) < shown_at(width, y, x),
{
    assert(0 <= v * (width + 1)) by (nonlinear_arith)
        requires
            0 <= v,
            0 < width,
    ;
    assert(v * (width + 1) + (width + 1) <= y * (width + 1)) by (nonlinear_arith)
        requires
            v + 1 <= y,
            0 < width,
    ;
}

/// The text of all cells of a grid shows them row by row, with a line break between one row and the
/// next, and a dot for every cell that is empty.
pub proof fn lemma_text_is_picture(cells: Seq<Option<char>>, width: int, height: int)
    requires
        0 < width,
        0 < height,
        cells.len() == height * width,
    ensures
        is_picture(
            Seq::new(
                height as nat,
                |y: int|
                    Seq::new(
                        width as nat,
                        |x: int|
                            match cells[y * width + x] {
                                Some(ch) => ch,
                                None => '.',
                            },
                    ),
            ),
            width,
            cells_text(cells, width, cells.len() as int),
        ),
{
    assert((height - 1) * width + width == height * width) by (nonlinear_arith);
    lemma_cells_picture(cells, width, height - 1, width);
}

/// When one more choice is shown, the cells of its slot show the letters of its word, and all other
/// cells what they showed before.
pub proof fn lemma_choice_shown(
    config: GridConfig,
    choices: Seq<Choice>,
    c: int,
    index: int,
)
    requires
        config.wf(),
        overlaps_recorded(config),
        choices.len() > 0,
        choices.last().slot_id < config.slot_count(),
        config.word_list.has_word(
            (config.slot_configs@[choices.last().slot_id as int].length, choices.last().word_id),
        ),
        with_choices(config, choices.drop_last()).len() == config.fill@.len(),
        0 <= c < config.slot_length(choices.last().slot_id as int),
        0 <= index < config.fill@.len(),
    ensures
        with_choices(config, choices).len() == config.fill@.len(),
        with_choices(config, choices)[config.slot_configs@[choices.last().slot_id as int].fill_index(
            c,
            config.width as int,
        )] == Some(
            config.word_list.text(
                (config.slot_configs@[choices.last().slot_id as int].length, choices.last().word_id),
            )[c],
        ),
        (forall|m: int|
            0 <= m < config.slot_length(choices.last().slot_id as int)
                ==> #[trigger] config.slot_configs@[choices.last().slot_id as int].fill_index(
                m,
                config.width as int,
            ) != index) ==> with_choices(config, choices)[index] == with_choices(
            config,
            choices.drop_last(),
        )[index],
        with_choices(config, Seq::empty()) == given_cells(config),
{
    let choice = choices.last();
    let s = choice.slot_id as int;
    let before = with_choices(config, choices.drop_last());
    let length = config.slot_length(s);
    let id = (config.slot_configs@[s].length, choice.word_id);
    assert(config.slot_wf(s));
    lemma_with_cells(
        config,
        before,
        choice,
        length,
        c,
        config.slot_configs@[s].fill_index(c, config.width as int),
    );
    lemma_with_cells(config, before, choice, length, c, index);
    assert(config.word_list.bucket_wf(length, config.word_list.words@[length]@));
    assert(config.word_list.word_wf(length, config.word_list.word(id)));
}

} // verus!
