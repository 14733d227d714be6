//! Reading grids from templates.

use crate::grid_config::{entry_fits, CrossingId, Direction, SlotSpec};
use crate::slot_layout::{
    entries_fit, is_crossing_id, is_planar, lemma_crossing_id_symmetric, location, meet_once, shares,
};
use crate::text::{chars_of, same_texts, split, split_chars, trim_chars, trimmed};
use vstd::prelude::*;

verus! {

/// The texts without the white space around them, except for those that are empty then.
pub open spec fn nonblank(texts: Seq<Seq<char>>) -> Seq<Seq<char>>
    decreases texts.len(),
{
    if texts.len() == 0 {
        Seq::empty()
    } else {
        let earlier = nonblank(texts.drop_last());
        let last = trimmed(texts.last());
        if last.len() == 0 {
            earlier
        } else {
            earlier.push(last)
        }
    }
}

/// The rows of a template: its lines without the white space around them, except for blank ones.
pub open spec fn template_rows(template: Seq<char>) -> Seq<Seq<char>> {
    nonblank(split(template, '\n'))
}

/// Read the rows of a template.
pub fn read_template(template: &str) -> (rows: Vec<Vec<char>>)
    ensures
        same_texts(rows@, template_rows(template@)),
{
    let chars: Vec<char> = chars_of(template);
    let lines: Vec<Vec<char>> = split_chars(&chars, '\n');
    let ghost texts = split(template@, '\n');
    let mut rows: Vec<Vec<char>> = Vec::new();
    let mut i: usize = 0;
    while i < lines.len()
        invariant
            same_texts(lines@, texts),
            0 <= i <= lines@.len(),
            same_texts(rows@, nonblank(texts.take(i as int))),
        decreases lines@.len() - i,
    {
        let line: Vec<char> = trim_chars(&lines[i]);
        proof {
            assert(texts.take(i + 1).drop_last() =~= texts.take(i as int));
            assert(texts.take(i + 1).last() == lines@[i as int]@);
        }
        if line.len() > 0 {
            rows.push(line);
        }
        i = i + 1;
    }
    assert(texts.take(i as int) =~= texts);
    rows
}

/// The cells from `start` on are a run: more than one cell, no blocks among them, and bounded by
/// blocks or the ends of the line.
pub open spec fn is_run(line: Seq<char>, start: int, length: int) -> bool {
    &&& length > 1
    &&& 0 <= start
    &&& start + length <= line.len()
    &&& forall|i: int| start <= i < start + length ==> #[trigger] line[i] != '#'
    &&& start > 0 ==> line[start - 1] == '#'
    &&& start + length < line.len() ==> line[start + length] == '#'
}

/// Runs that have a cell in common are the same.
proof fn lemma_runs_disjoint(line: Seq<char>, start: int, length: int, other: int, size: int, at: int)
    requires
        is_run(line, start, length),
        is_run(line, other, size),
        start <= at < start + length,
        other <= at < other + size,
    ensures
        start == other,
        length == size,
{
    if start < other {
        assert(line[other - 1] != '#');
    }
    if other < start {
        assert(line[start - 1] != '#');
    }
    if start + length < other + size {
        assert(line[start + length] != '#');
    }
    if other + size < start + length {
        assert(line[other + size] != '#');
    }
}

/// A run of a line.
#[derive(Debug, Clone, Copy)]
pub struct Run {
    pub line: usize,
    pub start: usize,
    pub length: usize,
}

/// The run `left` comes before `right`.
pub open spec fn precedes_run(left: Run, right: Run) -> bool {
    left.line < right.line || (left.line == right.line && left.start < right.start)
}

/// The run is one of its line.
pub open spec fn is_run_of(lines: Seq<Seq<char>>, run: Run) -> bool {
    run.line < lines.len() && is_run(lines[run.line as int], run.start as int, run.length as int)
}

/// The runs are all runs of the lines, in order.
pub open spec fn are_runs(lines: Seq<Seq<char>>, runs: Seq<Run>) -> bool {
    &&& forall|i: int, k: int|
        0 <= i < k < runs.len() ==> #[trigger] precedes_run(runs[i], runs[k])
    &&& forall|run: Run| #[trigger] runs.contains(run) <==> is_run_of(lines, run)
}

/// The runs are those of the lines before `line`, and those of that line that end before `cell`.
spec fn are_runs_so_far(lines: Seq<Seq<char>>, runs: Seq<Run>, line: int, cell: int) -> bool {
    &&& forall|i: int, k: int|
        0 <= i < k < runs.len() ==> #[trigger] precedes_run(runs[i], runs[k])
    &&& forall|run: Run| #[trigger]
        runs.contains(run) <==> is_run_of(lines, run) && (run.line < line || (run.line == line
            && run.start + run.length < cell))
}

/// Add the run from `start` to `end` of a line, if it is long enough.
proof fn lemma_add_run(
    lines: Seq<Seq<char>>,
    runs: Seq<Run>,
    after: Seq<Run>,
    run: Run,
    line: int,
    end: int,
)
    requires
        0 <= line < lines.len(),
        0 <= end <= lines[line].len(),
        are_runs_so_far(lines, runs, line, end),
        run.line == line,
        run.start + run.length == end,
        0 < run.start ==> lines[line][run.start - 1] == '#',
        forall|i: int| run.start <= i < end ==> #[trigger] lines[line][i] != '#',
        end < lines[line].len() ==> lines[line][end] == '#',
        after == if run.length > 1 {
            runs.push(run)
        } else {
            runs
        },
    ensures
        are_runs_so_far(lines, after, line, end + 1),
{
    assert forall|other: Run| #[trigger] after.contains(other) <==> is_run_of(lines, other) && (
    other.line < line || (other.line == line && other.start + other.length < end + 1)) by {
        if runs.contains(other) {
            assert(after[runs.index_of(other)] == other);
        }
        if after.contains(other) && other != run {
            assert(runs[after.index_of(other)] == other);
        }
        if run.length > 1 {
            assert(after[runs.len() as int] == run);
        }
        if is_run_of(lines, other) && other.line == line && other.start + other.length == end {
            // The only run that can end here is the one that was just read.
            if run.length > 1 {
                lemma_runs_disjoint(
                    lines[line],
                    run.start as int,
                    run.length as int,
                    other.start as int,
                    other.length as int,
                    end - 1,
                );
                assert(other == run);
            } else {
                assert(lines[line][end - 1] != '#' && lines[line][end - 2] != '#');
                assert(lines[line][run.start - 1] == '#');
            }
        }
        if other == run && after.contains(other) && run.length <= 1 {
            assert(runs.contains(other));
        }
    }
    assert forall|i: int, k: int| 0 <= i < k < after.len() implies #[trigger] precedes_run(
        after[i],
        after[k],
    ) by {
        if k < runs.len() {
            assert(precedes_run(runs[i], runs[k]));
        } else {
            assert(runs.contains(runs[i]));
            assert(after[i] == runs[i]);
            let earlier = runs[i];
            if earlier.line == line && earlier.start >= run.start {
                assert(lines[line][earlier.start as int] != '#');
                assert(earlier.start + earlier.length < end);
                assert(lines[line][earlier.start + earlier.length] == '#');
            }
        }
    }
}

/// The lines as texts.
pub open spec fn texts_of(lines: Seq<Vec<char>>) -> Seq<Seq<char>> {
    lines.map_values(|line: Vec<char>| line@)
}

/// Find all runs of some lines.
pub fn find_runs(lines: &Vec<Vec<char>>) -> (runs: Vec<Run>)
    ensures
        are_runs(texts_of(lines@), runs@),
{
    let ghost texts = texts_of(lines@);
    let mut runs: Vec<Run> = Vec::new();
    let mut y: usize = 0;
    while y < lines.len()
        invariant
            texts == texts_of(lines@),
            0 <= y <= lines@.len(),
            are_runs_so_far(texts, runs@, y as int, 0),
        decreases lines@.len() - y,
    {
        let line: &Vec<char> = &lines[y];
        let ghost text = texts[y as int];
        let mut start: usize = 0;
        let mut x: usize = 0;
        while x < line.len()
            invariant
                texts == texts_of(lines@),
                y < lines@.len(),
                line == lines@[y as int],
                text == line@,
                text == texts[y as int],
                0 <= start <= x <= line@.len(),
                are_runs_so_far(texts, runs@, y as int, x as int),
                0 < start ==> text[start - 1] == '#',
                forall|i: int| start <= i < x ==> #[trigger] text[i] != '#',
            decreases line@.len() - x,
        {
            let ghost before = runs@;
            if line[x] == '#' {
                let run: Run = Run { line: y, start, length: x - start };
                if run.length > 1 {
                    runs.push(run);
                }
                proof {
                    lemma_add_run(texts, before, runs@, run, y as int, x as int);
                }
                start = x + 1;
            } else {
                proof {
                    assert forall|run: Run| #[trigger] runs@.contains(run) <==> is_run_of(
                        texts,
                        run,
                    ) && (run.line < y || (run.line == y && run.start + run.length < x + 1)) by {
                        if is_run_of(texts, run) && run.line == y && run.start + run.length == x {
                            assert(text[x as int] == '#');
                        }
                    }
                }
            }
            x = x + 1;
        }
        let ghost before = runs@;
        let run: Run = Run { line: y, start, length: x - start };
        if run.length > 1 {
            runs.push(run);
        }
        proof {
            lemma_add_run(texts, before, runs@, run, y as int, x as int);
            assert forall|run: Run| #[trigger] runs@.contains(run) <==> is_run_of(texts, run) && (
            run.line < y + 1 || (run.line == y + 1 && run.start + run.length < 0)) by {}
        }
        y = y + 1;
    }
    proof {
        assert forall|run: Run| #[trigger] runs@.contains(run) <==> is_run_of(texts, run) by {}
    }
    runs
}

/// The columns of rows that are at least as long as the first one. There are as many as the first
/// row has cells.
pub open spec fn columns(rows: Seq<Seq<char>>) -> Seq<Seq<char>> {
    Seq::new(rows[0].len(), |x: int| Seq::new(rows.len(), |y: int| rows[y][x]))
}

/// There is a row, and all rows are at least as long as the first one.
pub open spec fn is_template(rows: Seq<Seq<char>>) -> bool {
    rows.len() > 0 && forall|y: int|
        0 <= y < rows.len() ==> (#[trigger] rows[y]).len() >= rows[0].len()
}

/// Exchange rows and columns.
fn transpose(rows: &Vec<Vec<char>>) -> (result: Vec<Vec<char>>)
    requires
        is_template(texts_of(rows@)),
    ensures
        texts_of(result@) == columns(texts_of(rows@)),
{
    let ghost texts = texts_of(rows@);
    let mut result: Vec<Vec<char>> = Vec::new();
    let width: usize = rows[0].len();
    let mut x: usize = 0;
    while x < width
        invariant
            texts == texts_of(rows@),
            is_template(texts),
            width == texts[0].len(),
            0 <= x <= width,
            result@.len() == x,
            forall|k: int| 0 <= k < x ==> (#[trigger] result@[k])@ == columns(texts)[k],
        decreases width - x,
    {
        let mut column: Vec<char> = Vec::new();
        let mut y: usize = 0;
        while y < rows.len()
            invariant
                texts == texts_of(rows@),
                is_template(texts),
                width == texts[0].len(),
                x < width,
                0 <= y <= rows@.len(),
                column@ == columns(texts)[x as int].take(y as int),
            decreases rows@.len() - y,
        {
            assert(texts[y as int].len() >= texts[0].len());
            column.push(rows[y][x]);
            y = y + 1;
            assert(column@ =~= columns(texts)[x as int].take(y as int));
        }
        assert(column@ =~= columns(texts)[x as int]);
        result.push(column);
        x = x + 1;
    }
    assert(texts_of(result@) =~= columns(texts));
    result
}

/// The slots for runs of rows.
pub open spec fn across_slots(runs: Seq<Run>) -> Seq<SlotSpec> {
    runs.map_values(
        |run: Run|
            SlotSpec {
                start_cell: (run.start, run.line),
                direction: Direction::Across,
                length: run.length,
            },
    )
}

/// The slots for runs of columns.
pub open spec fn down_slots(runs: Seq<Run>) -> Seq<SlotSpec> {
    runs.map_values(
        |run: Run|
            SlotSpec {
                start_cell: (run.line, run.start),
                direction: Direction::Down,
                length: run.length,
            },
    )
}

/// The slots of a template: first the runs of its rows, then those of its columns.
pub open spec fn are_template_slots(rows: Seq<Seq<char>>, slots: Seq<SlotSpec>) -> bool {
    exists|across: Seq<Run>, down: Seq<Run>|
        #![trigger are_runs(rows, across), are_runs(columns(rows), down)]
        are_runs(rows, across) && are_runs(columns(rows), down) && slots == across_slots(across)
            + down_slots(down)
}

/// Generate a list of `SlotSpec`s from the rows of a template.
pub fn generate_slots_from_rows(rows: &Vec<Vec<char>>) -> (slots: Vec<SlotSpec>)
    requires
        is_template(texts_of(rows@)),
    ensures
        are_template_slots(texts_of(rows@), slots@),
{
    let mut slots: Vec<SlotSpec> = Vec::new();
    let across: Vec<Run> = find_runs(rows);
    let mut i: usize = 0;
    while i < across.len()
        invariant
            0 <= i <= across@.len(),
            slots@ == across_slots(across@).take(i as int),
        decreases across@.len() - i,
    {
        let run: Run = across[i];
        slots.push(
            SlotSpec {
                start_cell: (run.start, run.line),
                direction: Direction::Across,
                length: run.length,
            },
        );
        i = i + 1;
        assert(slots@ =~= across_slots(across@).take(i as int));
    }
    assert(slots@ =~= across_slots(across@));
    let transposed: Vec<Vec<char>> = transpose(rows);
    let down: Vec<Run> = find_runs(&transposed);
    let mut k: usize = 0;
    while k < down.len()
        invariant
            0 <= k <= down@.len(),
            slots@ == across_slots(across@) + down_slots(down@).take(k as int),
        decreases down@.len() - k,
    {
        let run: Run = down[k];
        slots.push(
            SlotSpec {
                start_cell: (run.line, run.start),
                direction: Direction::Down,
                length: run.length,
            },
        );
        k = k + 1;
        assert(slots@ =~= across_slots(across@) + down_slots(down@).take(k as int));
    }
    assert(slots@ =~= across_slots(across@) + down_slots(down@));
    slots
}

/// Generate a list of `SlotSpec`s from a template string with . representing empty cells, #
/// representing blocks, and letters representing themselves.
pub fn generate_slots_from_template_string(template: &str) -> (slots: Vec<SlotSpec>)
    requires
        is_template(template_rows(template@)),
    ensures
        are_template_slots(template_rows(template@), slots@),
{
    let rows: Vec<Vec<char>> = read_template(template);
    assert(texts_of(rows@) =~= template_rows(template@));
    generate_slots_from_rows(&rows)
}

/// The slot is a run of the template in its direction.
pub open spec fn is_template_slot(rows: Seq<Seq<char>>, slot: SlotSpec) -> bool {
    match slot.direction {
        Direction::Across => slot.start_cell.1 < rows.len() && is_run(
            rows[slot.start_cell.1 as int],
            slot.start_cell.0 as int,
            slot.length as int,
        ),
        Direction::Down => slot.start_cell.0 < rows[0].len() && is_run(
            columns(rows)[slot.start_cell.0 as int],
            slot.start_cell.1 as int,
            slot.length as int,
        ),
    }
}

/// The slots of a template are exactly its runs, and none occurs twice.
pub proof fn lemma_template_slots(rows: Seq<Seq<char>>, slots: Seq<SlotSpec>)
    requires
        is_template(rows),
        are_template_slots(rows, slots),
    ensures
        forall|slot: SlotSpec| #[trigger] slots.contains(slot) <==> is_template_slot(rows, slot),
        slots.no_duplicates(),
{
    let (across, down) = choose|across: Seq<Run>, down: Seq<Run>|
        #![trigger are_runs(rows, across), are_runs(columns(rows), down)]
        are_runs(rows, across) && are_runs(columns(rows), down) && slots == across_slots(across)
            + down_slots(down);
    assert forall|slot: SlotSpec| #[trigger] slots.contains(slot) <==> is_template_slot(
        rows,
        slot,
    ) by {
        if slots.contains(slot) {
            let i = slots.index_of(slot);
            if i < across.len() {
                assert(slots[i] == across_slots(across)[i]);
                assert(across.contains(across[i]));
            } else {
                assert(slots[i] == down_slots(down)[i - across.len()]);
                assert(down.contains(down[i - across.len()]));
            }
        }
        if is_template_slot(rows, slot) {
            match slot.direction {
                Direction::Across => {
                    let run = Run {
                        line: slot.start_cell.1,
                        start: slot.start_cell.0,
                        length: slot.length,
                    };
                    assert(is_run_of(rows, run));
                    assert(across.contains(run));
                    let i = across.index_of(run);
                    assert(across_slots(across)[i] == slot);
                    assert(slots[i] == slot);
                },
                Direction::Down => {
                    let run = Run {
                        line: slot.start_cell.0,
                        start: slot.start_cell.1,
                        length: slot.length,
                    };
                    assert(is_run_of(columns(rows), run));
                    assert(down.contains(run));
                    let i = down.index_of(run);
                    assert(down_slots(down)[i] == slot);
                    assert(slots[across.len() + i] == slot);
                },
            }
        }
    }
    assert forall|i: int, k: int| 0 <= i < slots.len() && 0 <= k < slots.len() && i != k implies slots[i]
        != slots[k] by {
        lemma_slots_differ(across, down, slots, i, k);
    }
}

/// Different positions hold different slots.
proof fn lemma_slots_differ(
    across: Seq<Run>,
    down: Seq<Run>,
    slots: Seq<SlotSpec>,
    i: int,
    k: int,
)
    requires
        slots == across_slots(across) + down_slots(down),
        forall|i: int, k: int|
            0 <= i < k < across.len() ==> #[trigger] precedes_run(across[i], across[k]),
        forall|i: int, k: int|
            0 <= i < k < down.len() ==> #[trigger] precedes_run(down[i], down[k]),
        0 <= i < slots.len(),
        0 <= k < slots.len(),
        i != k,
    ensures
        slots[i] != slots[k],
{
    let n = across.len() as int;
    if i < n && k < n {
        assert(slots[i] == across_slots(across)[i] && slots[k] == across_slots(across)[k]);
        if i < k {
            assert(precedes_run(across[i], across[k]));
        } else {
            assert(precedes_run(across[k], across[i]));
        }
    } else if i >= n && k >= n {
        assert(slots[i] == down_slots(down)[i - n] && slots[k] == down_slots(down)[k - n]);
        if i < k {
            assert(precedes_run(down[i - n], down[k - n]));
        } else {
            assert(precedes_run(down[k - n], down[i - n]));
        }
    } else if i < n {
        assert(slots[i] == across_slots(across)[i] && slots[k] == down_slots(down)[k - n]);
    } else {
        assert(slots[k] == across_slots(across)[k] && slots[i] == down_slots(down)[i - n]);
    }
}

/// Two slots of a template in the same direction have no cell in common.
proof fn lemma_same_direction(
    rows: Seq<Seq<char>>,
    slots: Seq<SlotSpec>,
    e: int,
    c: int,
    f: int,
    d: int,
)
    requires
        is_template(rows),
        are_template_slots(rows, slots),
        shares(slots, e, c, f, d),
    ensures
        slots[e].direction != slots[f].direction,
{
    lemma_template_slots(rows, slots);
    assert(slots.contains(slots[e]) && slots.contains(slots[f]));
    let left = slots[e];
    let right = slots[f];
    if left.direction == right.direction {
        match left.direction {
            Direction::Across => {
                lemma_runs_disjoint(
                    rows[left.start_cell.1 as int],
                    left.start_cell.0 as int,
                    left.length as int,
                    right.start_cell.0 as int,
                    right.length as int,
                    left.start_cell.0 + c,
                );
            },
            Direction::Down => {
                lemma_runs_disjoint(
                    columns(rows)[left.start_cell.0 as int],
                    left.start_cell.1 as int,
                    left.length as int,
                    right.start_cell.1 as int,
                    right.length as int,
                    left.start_cell.1 + c,
                );
            },
        }
        assert(left == right);
    }
}

/// In a template no more than two slots meet in a cell, and two slots never meet twice.
pub proof fn lemma_template_planar(rows: Seq<Seq<char>>, slots: Seq<SlotSpec>)
    requires
        is_template(rows),
        are_template_slots(rows, slots),
    ensures
        is_planar(slots),
        forall|e: int, c: int, f: int, d: int| #[trigger]
            shares(slots, e, c, f, d) ==> meet_once(slots, e, c, f, d),
{
    assert forall|e: int, c: int, f: int, d: int, g: int, h: int| #[trigger]
        shares(slots, e, c, f, d) && #[trigger] shares(slots, e, c, g, h) implies f == g && d
        == h by {
        lemma_same_direction(rows, slots, e, c, f, d);
        lemma_same_direction(rows, slots, e, c, g, h);
        if f != g {
            assert(shares(slots, f, d, g, h));
            lemma_same_direction(rows, slots, f, d, g, h);
        }
    }
    assert forall|e: int, c: int, f: int, d: int| #[trigger] shares(slots, e, c, f, d) implies meet_once(
        slots,
        e,
        c,
        f,
        d,
    ) by {
        lemma_same_direction(rows, slots, e, c, f, d);
        assert forall|m: int, k: int| #[trigger] shares(slots, e, m, f, k) implies m == c && k
            == d by {
            assert(location(slots, e, m) == location(slots, f, k));
            assert(location(slots, e, c) == location(slots, f, d));
        }
    }
}

/// The cells of a template's slots can be represented.
pub proof fn lemma_template_fits(rows: Seq<Vec<char>>, slots: Seq<SlotSpec>)
    requires
        is_template(texts_of(rows)),
        are_template_slots(texts_of(rows), slots),
        rows.len() <= usize::MAX,
    ensures
        entries_fit(slots),
{
    let texts = texts_of(rows);
    lemma_template_slots(texts, slots);
    assert forall|e: int| 0 <= e < slots.len() implies entry_fits(
        (#[trigger] slots[e]).start_cell,
        slots[e].direction,
        slots[e].length as int,
    ) by {
        assert(slots.contains(slots[e]));
        let slot = slots[e];
        match slot.direction {
            Direction::Across => {
                let row = rows[slot.start_cell.1 as int];
                assert(texts[slot.start_cell.1 as int] == row@);
                assert(row.len() == row@.len());
            },
            Direction::Down => {},
        }
    }
}

/// Both slots that meet in a cell of a template give their crossing the same id.
pub proof fn lemma_template_crossing_ids(
    rows: Seq<Seq<char>>,
    slots: Seq<SlotSpec>,
    e: int,
    c: int,
    f: int,
    d: int,
    id: CrossingId,
    other_id: CrossingId,
)
    requires
        is_template(rows),
        are_template_slots(rows, slots),
        shares(slots, e, c, f, d),
        is_crossing_id(slots, e, c, f, id),
        is_crossing_id(slots, f, d, e, other_id),
    ensures
        id == other_id,
{
    lemma_template_planar(rows, slots);
    assert(meet_once(slots, e, c, f, d));
    lemma_crossing_id_symmetric(slots, e, c, f, d, id, other_id);
}

/// The slots of a template come in order: those across before those down, the ones across row by row
/// from left to right, the ones down column by column from top to bottom.
pub proof fn lemma_slots_in_order(rows: Seq<Seq<char>>, slots: Seq<SlotSpec>, i: int, k: int)
    requires
        are_template_slots(rows, slots),
        0 <= i < k < slots.len(),
    ensures
        ({
            let (x, y) = slots[i].start_cell;
            let (u, v) = slots[k].start_cell;
            match (slots[i].direction, slots[k].direction) {
                (Direction::Across, Direction::Across) => y < v || (y == v && x < u),
                (Direction::Down, Direction::Down) => x < u || (x == u && y < v),
                (Direction::Across, Direction::Down) => true,
                (Direction::Down, Direction::Across) => false,
            }
        }),
{
    let (across, down) = choose|across: Seq<Run>, down: Seq<Run>|
        #![trigger are_runs(rows, across), are_runs(columns(rows), down)]
        are_runs(rows, across) && are_runs(columns(rows), down) && slots == across_slots(across)
            + down_slots(down);
    let n = across.len() as int;
    if k < n {
        assert(slots[i] == across_slots(across)[i] && slots[k] == across_slots(across)[k]);
        assert(precedes_run(across[i], across[k]));
    } else if i >= n {
        assert(slots[i] == down_slots(down)[i - n] && slots[k] == down_slots(down)[k - n]);
        assert(precedes_run(down[i - n], down[k - n]));
    } else {
        assert(slots[i] == across_slots(across)[i] && slots[k] == down_slots(down)[k - n]);
    }
}

} // verus!
