//! Crossword filling with machine-checked contracts.
//!
//! A grid is described by its slots and their crossings ([`grid_config`]), each slot draws its
//! options from a scored word list ([`word_list`]), and [`backtracking_search`] looks for a choice
//! of one option per slot in which all crossings agree and no entry duplicates another.

pub mod arc_consistency;
pub mod attempt;
pub mod backtracking_search;
pub mod buffers;
pub mod counting;
pub mod dupe_index;
pub mod fill_model;
pub mod grid_config;
pub mod grid_input;
pub mod grid_setup;
pub mod grid_template;
pub mod option_order;
pub mod pattern;
pub mod puzzle;
pub mod random;
pub mod render;
pub mod search_model;
pub mod sequence_index;
pub mod slot;
pub mod slot_layout;
pub mod slot_options;
pub mod sorting;
pub mod text;
pub mod types;
pub mod util;
pub mod watch;
pub mod word_list;
pub mod word_source;

use vstd::prelude::*;

verus! {

/// The expected maximum number of distinct characters/rebuses/whatever appearing in a grid.
pub const MAX_GLYPH_COUNT: usize = 256;

/// The expected maximum number of slots appearing in a grid.
pub const MAX_SLOT_COUNT: usize = 256;

/// The expected maximum length for a single slot.
pub const MAX_SLOT_LENGTH: usize = 21;

} // verus!
