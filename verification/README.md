# ingrid_core

Crossword filling with machine-checked contracts. Given a grid and a scored word list, the library
looks for one word per slot so that all crossings agree and no entry duplicates another.

The library is in `src/` and is verified with Verus:

* `types`, `word_list`, `word_source`, `sequence_index`, `dupe_index`: glyphs, words, reading lists of
  them, and which words duplicate each other.
* `grid_config`: slots, crossings and the configuration of a grid.
* `slot_layout`, `grid_template`, `grid_setup`: building a grid from entries or from a template.
* `pattern`, `slot_options`, `option_order`: which words a slot may be filled with, and the order in
  which they are tried.
* `fill_model`: what a fill is, and what arc consistency means.
* `slot`, `arc_consistency`, `search_model`, `attempt`, `backtracking_search`: the search for a fill.
* `grid_input`, `render`, `text`, `buffers`: reading and showing grids.
* `counting`, `sorting`, `random`, `util`: shared pieces.

`find_fill` returns choices that fill the grid, or says that the grid cannot be filled; without a
timeout and without a way to abort, it succeeds exactly when there is a fill. This is proved for every
ranking of the slots and every sequence of random numbers. Heuristics in floating point, the clock and
files are in `app/`, which implements the traits `SearchDriver` and `FillScorer`.
