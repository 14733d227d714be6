//! Code for configuring a crossword-filling operation, independent of the specific fill algorithm.

use crate::pattern::pattern_text;
use crate::slot_options::{filter_outcome, regex_outcome};
use crate::text::{
    chars_of, decimal, is_decimal, is_digit, is_text, lemma_decimal_round_trip, lemma_split_append,
    lemma_split_single, parse_usize, parsed_number, push_decimal, split, split_chars, without_plus,
};
use crate::types::{GlyphId, WordId};
use crate::word_list::WordList;
use fancy_regex::Regex;
use vstd::prelude::*;

pub use crate::grid_setup::{generate_grid_config, generate_grid_config_from_template_string};
pub use crate::grid_template::generate_slots_from_template_string;
pub use crate::option_order::sort_slot_options;
pub use crate::render::render_grid;
pub use crate::slot_layout::generate_slot_configs;
pub use crate::slot_options::{
    generate_all_checked_slot_options, generate_all_slot_options, generate_checked_slot_options,
    generate_slot_options,
};

verus! {

/// `fancy_regex::Regex`, a compiled regular expression. Nothing is known of what is inside.
#[verifier::external_type_specification]
#[verifier::external_body]
pub struct ExRegex(Regex);

/// An identifier for the intersection between two slots; these correspond one-to-one with checked
/// squares in the grid and are used to track weights (i.e., how often each square is involved in
/// a domain wipeout).
pub type CrossingId = usize;

/// An identifier for a given slot, based on its index in the `GridConfig`'s `slot_configs` field.
pub type SlotId = usize;

/// Zero-indexed x and y coords for a cell in the grid, where y = 0 in the top row.
pub type GridCoord = (usize, usize);

/// The direction that a slot is facing.
#[derive(Debug, Clone, Copy, Eq, PartialEq, Hash, PartialOrd, Ord, Structural)]
pub enum Direction {
    Across,
    Down,
}

/// A struct representing a crossing between one slot and another, referencing the other slot's id
/// and the location of the intersection within the other slot.
#[derive(Debug, Clone, Copy)]
pub struct Crossing {
    pub other_slot_id: SlotId,
    pub other_slot_cell: usize,
    pub crossing_id: CrossingId,
}

/// A struct representing the aspects of a slot in the grid that are static during filling.
#[derive(Debug)]
pub struct SlotConfig {
    pub id: SlotId,
    pub start_cell: GridCoord,
    pub direction: Direction,
    pub length: usize,
    pub crossings: Vec<Option<Crossing>>,
    pub min_score_override: Option<u16>,
    pub filter_pattern: Option<Regex>,
}

/// The column and row of a cell of an entry.
pub open spec fn entry_cell(start: GridCoord, direction: Direction, cell: int) -> (int, int) {
    match direction {
        Direction::Across => (start.0 + cell, start.1 as int),
        Direction::Down => (start.0 as int, start.1 + cell),
    }
}

/// The coords of every cell of an entry can be represented.
pub open spec fn entry_fits(start: GridCoord, direction: Direction, length: int) -> bool {
    match direction {
        Direction::Across => start.0 + length - 1 <= usize::MAX,
        Direction::Down => start.1 + length - 1 <= usize::MAX,
    }
}

/// Generate the coords for each cell of an entry.
fn entry_coords(start_cell: GridCoord, direction: Direction, length: usize) -> (coords: Vec<
    GridCoord,
>)
    requires
        entry_fits(start_cell, direction, length as int),
    ensures
        coords@.len() == length,
        forall|c: int|
            0 <= c < length ==> {
                let coord = #[trigger] coords@[c];
                (coord.0 as int, coord.1 as int) == entry_cell(start_cell, direction, c)
            },
{
    let mut coords: Vec<GridCoord> = Vec::new();
    let mut cell_idx: usize = 0;
    while cell_idx < length
        invariant
            entry_fits(start_cell, direction, length as int),
            0 <= cell_idx <= length,
            coords@.len() == cell_idx,
            forall|c: int|
                0 <= c < cell_idx ==> {
                    let coord = #[trigger] coords@[c];
                    (coord.0 as int, coord.1 as int) == entry_cell(start_cell, direction, c)
                },
        decreases length - cell_idx,
    {
        coords.push(
            match direction {
                Direction::Across => (start_cell.0 + cell_idx, start_cell.1),
                Direction::Down => (start_cell.0, start_cell.1 + cell_idx),
            },
        );
        cell_idx = cell_idx + 1;
    }
    coords
}

/// The position of a cell in a flat fill array of the given width.
pub open spec fn flat_index(coord: (int, int), width: int) -> int {
    coord.0 + coord.1 * width
}

impl SlotConfig {
    /// The column and row of a cell of this slot.
    pub open spec fn cell(&self, cell: int) -> (int, int) {
        entry_cell(self.start_cell, self.direction, cell)
    }

    /// The position of a cell of this slot in a flat fill array.
    pub open spec fn fill_index(&self, cell: int, grid_width: int) -> int {
        flat_index(self.cell(cell), grid_width)
    }

    /// Every cell of this slot has a place in a flat fill array.
    pub open spec fn fits(&self, fill_len: int, grid_width: int) -> bool {
        &&& entry_fits(self.start_cell, self.direction, self.length as int)
        &&& forall|c: int|
            0 <= c < self.length ==> 0 <= #[trigger] self.fill_index(c, grid_width) < fill_len
    }

    /// The contents of the cells of this slot.
    pub open spec fn fill_values(&self, fill: Seq<Option<GlyphId>>, grid_width: int) -> Seq<
        Option<GlyphId>,
    > {
        Seq::new(self.length as nat, |c: int| fill[self.fill_index(c, grid_width)])
    }

    /// All cells of this slot are populated.
    pub open spec fn filled(&self, fill: Seq<Option<GlyphId>>, grid_width: int) -> bool {
        forall|c: int|
            0 <= c < self.length ==> fill[#[trigger] self.fill_index(c, grid_width)] is Some
    }

    /// Generate the coords for each cell of this slot.
    pub fn cell_coords(&self) -> (coords: Vec<GridCoord>)
        requires
            entry_fits(self.start_cell, self.direction, self.length as int),
        ensures
            coords@.len() == self.length,
            forall|c: int|
                0 <= c < self.length ==> {
                    let coord = #[trigger] coords@[c];
                    (coord.0 as int, coord.1 as int) == self.cell(c)
                },
    {
        entry_coords(self.start_cell, self.direction, self.length)
    }

    /// Generate the indices of this slot's cells in a flat fill array like `GridConfig.fill`.
    pub fn cell_fill_indices(&self, grid_width: usize) -> (indices: Vec<usize>)
        requires
            self.fits(usize::MAX + 1, grid_width as int),
        ensures
            indices@.len() == self.length,
            forall|c: int|
                0 <= c < self.length ==> #[trigger] indices@[c] == self.fill_index(
                    c,
                    grid_width as int,
                ),
    {
        let coords: Vec<GridCoord> = self.cell_coords();
        let mut indices: Vec<usize> = Vec::new();
        let mut cell_idx: usize = 0;
        while cell_idx < coords.len()
            invariant
                self.fits(usize::MAX + 1, grid_width as int),
                coords@.len() == self.length,
                forall|c: int|
                    0 <= c < self.length ==> {
                        let coord = #[trigger] coords@[c];
                        (coord.0 as int, coord.1 as int) == self.cell(c)
                    },
                0 <= cell_idx <= coords@.len(),
                indices@.len() == cell_idx,
                forall|c: int|
                    0 <= c < cell_idx ==> #[trigger] indices@[c] == self.fill_index(
                        c,
                        grid_width as int,
                    ),
            decreases coords@.len() - cell_idx,
        {
            let loc: GridCoord = coords[cell_idx];
            proof {
                let index = self.fill_index(cell_idx as int, grid_width as int);
                assert(index == loc.0 + loc.1 * grid_width);
                assert(loc.1 * grid_width >= 0) by (nonlinear_arith);
            }
            indices.push(loc.0 + loc.1 * grid_width);
            cell_idx = cell_idx + 1;
        }
        indices
    }

    /// Get the values of this slot's cells in a flat fill array like `GridConfig.fill`.
    pub fn fill(&self, fill: &[Option<GlyphId>], grid_width: usize) -> (values: Vec<
        Option<GlyphId>,
    >)
        requires
            self.fits(fill@.len() as int, grid_width as int),
        ensures
            values@ == self.fill_values(fill@, grid_width as int),
    {
        let fill_len: usize = fill.len();
        assert forall|c: int| 0 <= c < self.length implies 0 <= #[trigger] self.fill_index(
            c,
            grid_width as int,
        ) < usize::MAX + 1 by {}
        let indices: Vec<usize> = self.cell_fill_indices(grid_width);
        let mut values: Vec<Option<GlyphId>> = Vec::new();
        let mut cell_idx: usize = 0;
        while cell_idx < indices.len()
            invariant
                self.fits(fill@.len() as int, grid_width as int),
                indices@.len() == self.length,
                forall|c: int|
                    0 <= c < self.length ==> #[trigger] indices@[c] == self.fill_index(
                        c,
                        grid_width as int,
                    ),
                0 <= cell_idx <= indices@.len(),
                values@ == self.fill_values(fill@, grid_width as int).take(cell_idx as int),
            decreases indices@.len() - cell_idx,
        {
            let idx: usize = indices[cell_idx];
            values.push(fill[idx]);
            cell_idx = cell_idx + 1;
            assert(values@ =~= self.fill_values(fill@, grid_width as int).take(cell_idx as int));
        }
        assert(values@ =~= self.fill_values(fill@, grid_width as int));
        values
    }

    /// Get this slot's `fill` if and only if all of its cells are populated.
    pub fn complete_fill(&self, fill: &[Option<GlyphId>], grid_width: usize) -> (complete: Option<
        Vec<GlyphId>,
    >)
        requires
            self.fits(fill@.len() as int, grid_width as int),
        ensures
            complete is Some == self.filled(fill@, grid_width as int),
            complete matches Some(glyphs) ==> is_complete(
                self.fill_values(fill@, grid_width as int),
                glyphs@,
            ),
    {
        let values: Vec<Option<GlyphId>> = self.fill(fill, grid_width);
        let complete: Option<Vec<GlyphId>> = collect_fill(values.as_slice());
        proof {
            if complete is None {
                let c = choose|c: int| 0 <= c < values@.len() && (#[trigger] values@[c]) is None;
                assert(values@[c] == fill@[self.fill_index(c, grid_width as int)]);
            } else {
                assert forall|c: int| 0 <= c < self.length implies fill@[#[trigger] self.fill_index(
                    c,
                    grid_width as int,
                )] is Some by {
                    assert(values@[c] is Some);
                }
            }
        }
        complete
    }

    /// The spec of this slot.
    pub open spec fn identity(&self) -> SlotSpec {
        SlotSpec { start_cell: self.start_cell, direction: self.direction, length: self.length }
    }

    /// Generate a `SlotSpec` identifying this slot.
    pub fn slot_spec(&self) -> (spec: SlotSpec)
        ensures
            spec == self.identity(),
    {
        SlotSpec { start_cell: self.start_cell, direction: self.direction, length: self.length }
    }

    /// Generate a string key identifying this slot.
    pub fn slot_key(&self) -> (key: String)
        ensures
            key@ == self.identity().key_text(),
    {
        self.slot_spec().to_key()
    }
}

/// Calls `Regex::clone`. Claimed is that the copy is made from the same text and matches the same
/// texts.
#[verifier::external_body]
fn clone_pattern(pattern: &Regex) -> (copy: Regex)
    ensures
        pattern_text(copy) == pattern_text(*pattern),
        forall|text: Seq<char>| #[trigger]
            regex_outcome(copy, text) == regex_outcome(*pattern, text),
{
    pattern.clone()
}

impl Clone for SlotConfig {
    fn clone(&self) -> (copy: Self)
        ensures
            copy.id == self.id,
            copy.identity() == self.identity(),
            copy.crossings@ == self.crossings@,
            copy.min_score_override == self.min_score_override,
            copy.filter_pattern is Some == self.filter_pattern is Some,
            copy.filter_pattern matches Some(pattern) ==> pattern_text(pattern) == pattern_text(
                self.filter_pattern->0,
            ),
            forall|text: Seq<char>| #[trigger]
                filter_outcome(copy.filter_pattern, text) == filter_outcome(
                    self.filter_pattern,
                    text,
                ),
    {
        let mut crossings: Vec<Option<Crossing>> = Vec::new();
        let mut c: usize = 0;
        while c < self.crossings.len()
            invariant
                0 <= c <= self.crossings@.len(),
                crossings@ == self.crossings@.take(c as int),
            decreases self.crossings@.len() - c,
        {
            crossings.push(self.crossings[c]);
            c = c + 1;
            assert(crossings@ =~= self.crossings@.take(c as int));
        }
        assert(crossings@ =~= self.crossings@);
        let filter_pattern: Option<Regex> = match &self.filter_pattern {
            Some(pattern) => Some(clone_pattern(pattern)),
            None => None,
        };
        SlotConfig {
            id: self.id,
            start_cell: self.start_cell,
            direction: self.direction,
            length: self.length,
            crossings,
            min_score_override: self.min_score_override,
            filter_pattern,
        }
    }
}

/// The glyphs are those of the cells, which are all populated.
pub open spec fn is_complete(values: Seq<Option<GlyphId>>, glyphs: Seq<GlyphId>) -> bool {
    &&& glyphs.len() == values.len()
    &&& forall|c: int| 0 <= c < values.len() ==> #[trigger] values[c] == Some(glyphs[c])
}

/// The glyphs of cells that are all populated.
pub fn collect_fill(values: &[Option<GlyphId>]) -> (complete: Option<Vec<GlyphId>>)
    ensures
        match complete {
            Some(glyphs) => is_complete(values@, glyphs@),
            None => exists|c: int| 0 <= c < values@.len() && (#[trigger] values@[c]) is None,
        },
{
    let mut glyphs: Vec<GlyphId> = Vec::new();
    let mut cell_idx: usize = 0;
    while cell_idx < values.len()
        invariant
            0 <= cell_idx <= values@.len(),
            glyphs@.len() == cell_idx,
            forall|c: int| 0 <= c < cell_idx ==> #[trigger] values@[c] == Some(glyphs@[c]),
        decreases values@.len() - cell_idx,
    {
        match values[cell_idx] {
            Some(glyph) => glyphs.push(glyph),
            None => {
                assert(values@[cell_idx as int] is None);
                return None;
            },
        }
        cell_idx = cell_idx + 1;
    }
    Some(glyphs)
}

/// A struct identifying a specific slot in the grid.
#[derive(Debug, PartialEq, Eq, Hash, Clone, Copy)]
pub struct SlotSpec {
    pub start_cell: GridCoord,
    pub direction: Direction,
    pub length: usize,
}

/// The name of a direction.
pub open spec fn direction_name(direction: Direction) -> Seq<char> {
    match direction {
        Direction::Across => "across"@,
        Direction::Down => "down"@,
    }
}

/// The slot that a key like "1,2,down,5" identifies.
pub open spec fn parsed_key(key: Seq<char>) -> Option<SlotSpec> {
    let parts = split(key, ',');
    let bound = usize::MAX as nat;
    if parts.len() != 4 {
        None
    } else {
        match (
            parsed_number(parts[0], bound),
            parsed_number(parts[1], bound),
            parsed_number(parts[3], bound),
        ) {
            (Some(x), Some(y), Some(length)) => {
                if parts[2] == direction_name(Direction::Across) {
                    Some(
                        SlotSpec {
                            start_cell: (x as usize, y as usize),
                            direction: Direction::Across,
                            length: length as usize,
                        },
                    )
                } else if parts[2] == direction_name(Direction::Down) {
                    Some(
                        SlotSpec {
                            start_cell: (x as usize, y as usize),
                            direction: Direction::Down,
                            length: length as usize,
                        },
                    )
                } else {
                    None
                }
            },
            _ => None,
        }
    }
}

/// What is said of a key that identifies no slot.
pub open spec fn key_error(key: Seq<char>) -> Seq<char> {
    if split(key, ',').len() != 4 {
        "invalid slot key: "@ + key
    } else {
        "invalid slot key: "@ + debug_quoted(key)
    }
}

/// How a text is shown with quotes around it and special characters escaped.
pub uninterp spec fn debug_quoted(text: Seq<char>) -> Seq<char>;

/// Calls the `Debug` formatting of `str`, which puts quotes around the text and escapes special
/// characters. Claimed is only that the result depends on nothing but the text.
#[verifier::external_body]
fn quote_debug(text: &str) -> (quoted: String)
    ensures
        quoted@ == debug_quoted(text@),
{
    format!("{text:?}")
}

impl SlotSpec {
    /// The key of this slot.
    pub open spec fn key_text(self) -> Seq<char> {
        decimal(self.start_cell.0 as nat).push(',') + decimal(self.start_cell.1 as nat).push(',')
            + direction_name(self.direction).push(',') + decimal(self.length as nat)
    }

    /// Parse a string like "1,2,down,5" into a `SlotSpec` struct.
    pub fn from_key(key: &str) -> (result: Result<SlotSpec, String>)
        ensures
            match result {
                Ok(spec) => parsed_key(key@) == Some(spec),
                Err(error) => parsed_key(key@) is None && error@ == key_error(key@),
            },
    {
        let chars: Vec<char> = chars_of(key);
        let key_parts: Vec<Vec<char>> = split_chars(&chars, ',');
        if key_parts.len() != 4 {
            let mut error: String = "invalid slot key: ".to_owned();
            error.append(key);
            return Err(error);
        }
        let x: Option<usize> = parse_usize(&key_parts[0]);
        let y: Option<usize> = parse_usize(&key_parts[1]);
        let direction: Option<Direction> = if is_text(&key_parts[2], "across") {
            Some(Direction::Across)
        } else if is_text(&key_parts[2], "down") {
            Some(Direction::Down)
        } else {
            None
        };
        let length: Option<usize> = parse_usize(&key_parts[3]);
        if let (Some(x), Some(y), Some(direction), Some(length)) = (x, y, direction, length) {
            Ok(SlotSpec { start_cell: (x, y), direction, length })
        } else {
            let mut error: String = "invalid slot key: ".to_owned();
            error.append(quote_debug(key).as_str());
            Err(error)
        }
    }

    /// Represent this slot as a string like "1,2,down,5".
    pub fn to_key(&self) -> (key: String)
        ensures
            key@ == self.key_text(),
    {
        let mut key: String = String::new();
        push_decimal(&mut key, self.start_cell.0);
        key.push(',');
        push_decimal(&mut key, self.start_cell.1);
        key.push(',');
        match self.direction {
            Direction::Across => key.append("across"),
            Direction::Down => key.append("down"),
        }
        key.push(',');
        push_decimal(&mut key, self.length);
        assert(key@ =~= self.key_text());
        key
    }

    /// Does this spec match the given slot config?
    pub fn matches_slot(&self, slot: &SlotConfig) -> (result: bool)
        ensures
            result == (self.start_cell == slot.start_cell && self.direction == slot.direction
                && self.length == slot.length),
    {
        self.start_cell.0 == slot.start_cell.0 && self.start_cell.1 == slot.start_cell.1
            && self.direction == slot.direction && self.length == slot.length
    }

    /// Generate the coords for each cell of this entry.
    pub fn cell_coords(&self) -> (coords: Vec<GridCoord>)
        requires
            entry_fits(self.start_cell, self.direction, self.length as int),
        ensures
            coords@.len() == self.length,
            forall|c: int|
                0 <= c < self.length ==> {
                    let coord = #[trigger] coords@[c];
                    (coord.0 as int, coord.1 as int) == entry_cell(
                        self.start_cell,
                        self.direction,
                        c,
                    )
                },
    {
        entry_coords(self.start_cell, self.direction, self.length)
    }
}

/// Digits contain no comma.
proof fn lemma_no_comma(text: Seq<char>)
    requires
        is_decimal(text),
    ensures
        !text.contains(','),
        without_plus(text) == text,
{
    if text.contains(',') {
        assert(is_digit(text[text.index_of(',')]));
    }
    assert(is_digit(text[0]));
}

/// Parsing the key of a slot gives the slot back.
pub proof fn lemma_key_round_trip(spec: SlotSpec)
    ensures
        parsed_key(spec.key_text()) == Some(spec),
{
    let x = decimal(spec.start_cell.0 as nat);
    let y = decimal(spec.start_cell.1 as nat);
    let name = direction_name(spec.direction);
    let length = decimal(spec.length as nat);
    lemma_decimal_round_trip(spec.start_cell.0 as nat);
    lemma_decimal_round_trip(spec.start_cell.1 as nat);
    lemma_decimal_round_trip(spec.length as nat);
    lemma_no_comma(x);
    lemma_no_comma(y);
    lemma_no_comma(length);
    reveal_strlit("across");
    reveal_strlit("down");
    assert("across"@.len() != "down"@.len());
    assert(!name.contains(','));
    lemma_split_single(x, ',');
    lemma_split_append(x, ',', y);
    let two = x.push(',') + y;
    lemma_split_append(two, ',', name);
    let three = two.push(',') + name;
    lemma_split_append(three, ',', length);
    assert(three.push(',') + length =~= spec.key_text());
}

/// A struct holding references to all of the information needed as input to a crossword filling
/// operation.
#[derive(Clone)]
pub struct GridConfig<'a> {
    /// The word list used to fill the grid.
    pub word_list: &'a WordList,
    /// A flat array of letters filled into the grid, in order of row and then column. `None` can
    /// represent a block or an unfilled cell.
    pub fill: &'a [Option<GlyphId>],
    /// Config representing all of the slots in the grid and their crossings.
    pub slot_configs: &'a [SlotConfig],
    /// An array of available words for each (respective) slot, based on both the word list config
    /// and the existing letters filled into the grid.
    pub slot_options: &'a [Vec<WordId>],
    /// The width and height of the grid.
    pub width: usize,
    pub height: usize,
    /// The number of distinct crossings represented in all of the `slot_configs`.
    pub crossing_count: usize,
    /// Whether a signal can be given that the fill operation should be canceled.
    pub abort: bool,
}

/// A struct that owns a copy of each piece of information needed by `GridConfig`.
pub struct OwnedGridConfig {
    pub word_list: WordList,
    pub fill: Vec<Option<GlyphId>>,
    pub slot_configs: Vec<SlotConfig>,
    pub slot_options: Vec<Vec<WordId>>,
    pub width: usize,
    pub height: usize,
    pub crossing_count: usize,
    pub abort: bool,
}

impl<'a> GridConfig<'a> {
    /// The references are to the parts of `owned`.
    pub open spec fn is_view_of(self, owned: OwnedGridConfig) -> bool {
        &&& *self.word_list == owned.word_list
        &&& self.fill@ == owned.fill@
        &&& self.slot_configs@ == owned.slot_configs@
        &&& self.slot_options@ == owned.slot_options@
        &&& self.width == owned.width
        &&& self.height == owned.height
        &&& self.crossing_count == owned.crossing_count
        &&& self.abort == owned.abort
    }
}

impl OwnedGridConfig {
    /// The grid can be handed to a fill operation.
    pub open spec fn wf(&self) -> bool {
        forall|config: GridConfig| #[trigger] config.is_view_of(*self) ==> config.wf()
    }

    /// Reference each piece of information.
    pub fn to_config_ref(&self) -> (config: GridConfig<'_>)
        ensures
            config.is_view_of(*self),
    {
        GridConfig {
            word_list: &self.word_list,
            fill: self.fill.as_slice(),
            slot_configs: self.slot_configs.as_slice(),
            slot_options: self.slot_options.as_slice(),
            width: self.width,
            height: self.height,
            crossing_count: self.crossing_count,
            abort: self.abort,
        }
    }
}

/// A struct recording a slot assignment made during a fill process.
#[derive(Debug, Clone, Copy)]
pub struct Choice {
    pub slot_id: SlotId,
    pub word_id: WordId,
}

} // verus!
