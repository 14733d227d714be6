//! From the text of a grid to the text of the filled grid.

use ingrid_core::arc_consistency::ArcConsistencyFailure;
use ingrid_core::backtracking_search::{SearchDriver, Slot};
use ingrid_core::grid_config::{
    generate_grid_config_from_template_string, render_grid, Choice, GridConfig, SlotId,
};
use ingrid_core::grid_input::{
    check_grid, combine_errors, dupe_window, fill_file_content, fill_grid_content, fill_grid_text,
    is_url, max_side, normalize_grid, normalize_grid_wasm, prepare_grid, solve_grid,
    solve_grid_wasm, FillError, GridError, GridShape, SolveError, DEFAULT_MIN_SCORE,
};
use ingrid_core::option_order::FillScorer;
use ingrid_core::text::{
    chars_of, check_white_space, is_text, parse_usize, replace_char, split_chars, split_lines,
    starts_with, text_of, trim_chars,
};
use ingrid_core::word_list::WordList;

struct FlatScorer;

impl FillScorer for FlatScorer {
    fn fill_score(&self, _crossing_counts: &Vec<Option<u32>>) -> i64 {
        0
    }
}

/// A driver that doesn't prefer any slot.
struct PlainDriver;

impl SearchDriver for PlainDriver {
    fn now(&self) -> u64 {
        0
    }

    fn abort_requested(&self) -> bool {
        false
    }

    fn weigh_slots(&mut self, _config: &GridConfig, _slots: &Vec<Slot>) {}

    fn rank_slot(&self, _slots: &Vec<Slot>, slot_id: SlotId) -> u32 {
        slot_id as u32
    }

    fn stays_with(&self, _slots: &Vec<Slot>, _last: SlotId, _best: SlotId) -> bool {
        true
    }

    fn record_failure(&mut self, _config: &GridConfig, _failure: &ArcConsistencyFailure) {}

    fn grow_backtrack_limit(&self, _max_backtracks: usize) -> usize {
        0
    }
}

fn list_of(words: &[&str]) -> WordList {
    let mut word_list = WordList::new(3, 0);
    for word in words {
        word_list.add_word(word, 50, 0);
    }
    word_list
}

#[test]
fn grids_are_normalized() {
    assert_eq!(normalize_grid("  .A.\r\n  ..#  \n\n"), ".a.\n..#\n");
    assert_eq!(normalize_grid("A\u{308}#\n.."), "ä#\n..\n");
    assert_eq!(normalize_grid(""), "\n");
    assert_eq!(normalize_grid(" \n \n"), "\n");
    assert_eq!(normalize_grid("..\n\n.."), "..\n\n..\n");
    assert_eq!(normalize_grid_wasm(" .A.\n..# \n"), ".a.\n..#");
    assert_eq!(normalize_grid_wasm("\u{fb01}\u{c4}"), "fia\u{308}");
}

#[test]
fn grids_are_checked() {
    assert_eq!(
        check_grid("...\n..#\n", None),
        Ok(GridShape {
            width: 3,
            height: 2
        })
    );
    assert_eq!(check_grid("", None), Err(GridError::NoRows));
    assert_eq!(check_grid("...\n..", None), Err(GridError::UnevenRows));
    assert_eq!(check_grid("äöü\r\nabc", Some(3)).map(|shape| shape.width), Ok(3));
    assert_eq!(check_grid("...", Some(10)).map(|shape| shape.height), Ok(1));
    assert_eq!(check_grid("...", Some(2)), Err(GridError::BadSharedSubstring));
    assert_eq!(check_grid("...", Some(11)), Err(GridError::BadSharedSubstring));
    // The rows are looked at first.
    assert_eq!(check_grid("...\n..", Some(2)), Err(GridError::UnevenRows));
}

#[test]
fn errors_are_described() {
    assert_eq!(GridError::NoRows.message(), "Grid must have at least one row");
    assert_eq!(
        GridError::UnevenRows.message(),
        "Rows in grid must all be the same length"
    );
    assert_eq!(
        GridError::BadSharedSubstring.message(),
        "If given, max shared substring must be between 3 and 10"
    );
    let errors: Vec<String> = vec![];
    assert_eq!(combine_errors(&errors), None);
    let errors = vec![String::from("one")];
    assert_eq!(combine_errors(&errors), Some(String::from("one")));
    let errors = vec![String::from("one"), String::from("two")];
    assert_eq!(combine_errors(&errors), Some(String::from("\n- one\n- two")));
}

#[test]
fn settings_are_derived() {
    let shape = |width, height| GridShape { width, height };
    assert_eq!(max_side(shape(15, 15)), 15);
    assert_eq!(max_side(shape(5, 3)), 5);
    assert_eq!(max_side(shape(1, 7)), 7);
    assert_eq!(dupe_window(None), 0);
    assert_eq!(dupe_window(Some(3)), 4);
    assert_eq!(dupe_window(Some(10)), 11);
    assert_eq!(DEFAULT_MIN_SCORE, 50);
    assert!(is_url("http://example.com/list"));
    assert!(is_url("https://example.com/list"));
    assert!(!is_url("ftp://example.com/list"));
    assert!(!is_url("lists/http://"));
    assert!(!is_url("http:/"));
}

#[test]
fn grids_are_solved() {
    let words = ["abc", "def", "ghi", "adg", "beh", "cfi", "xyz"];
    let solved = solve_grid(list_of(&words), "a..\n...\n...", 50, &FlatScorer, &mut PlainDriver);
    let solved = solved.unwrap();
    assert!(solved == "abc\ndef\nghi" || solved == "adg\nbeh\ncfi");
    let solved =
        solve_grid_wasm(list_of(&words), "a..\n...\n...", 50, &FlatScorer, &mut PlainDriver);
    let solved = solved.unwrap();
    assert!(solved == "abc\ndef\nghi" || solved == "adg\nbeh\ncfi");
}

#[test]
fn blocks_are_shown() {
    let solved = solve_grid(list_of(&["abc"]), "...\n#.#", 50, &FlatScorer, &mut PlainDriver);
    // The single cell below the b is in no slot.
    assert_eq!(solved, Err(SolveError::Unfillable));
    let solved = solve_grid(list_of(&["abc"]), "...\n###", 50, &FlatScorer, &mut PlainDriver);
    assert_eq!(solved, Ok(String::from("abc\n###")));
    let solved = solve_grid(list_of(&["abc"]), "#A#\n.#.", 50, &FlatScorer, &mut PlainDriver);
    assert_eq!(solved, Ok(String::from("#a#\n###")));
}

#[test]
fn failures_are_told_apart() {
    let words = ["abc", "def"];
    let unfillable =
        solve_grid(list_of(&words), "...\n...\n...", 50, &FlatScorer, &mut PlainDriver);
    assert_eq!(unfillable, Err(SolveError::Unfillable));
    let unfillable =
        solve_grid_wasm(list_of(&words), "...\n...\n...", 50, &FlatScorer, &mut PlainDriver);
    assert_eq!(unfillable, Err(SolveError::Unfillable));
    let low = solve_grid(list_of(&words), "...\n###", 51, &FlatScorer, &mut PlainDriver);
    assert_eq!(low, Err(SolveError::Unfillable));
    let uneven = solve_grid(list_of(&words), "...\n..", 50, &FlatScorer, &mut PlainDriver);
    assert_eq!(uneven, Err(SolveError::BadTemplate));
    let empty = prepare_grid(list_of(&words), " \n", 50, &FlatScorer);
    assert!(matches!(empty, Err(SolveError::BadTemplate)));
    // Words longer than those of the list are no problem.
    let long = solve_grid(list_of(&words), "....", 50, &FlatScorer, &mut PlainDriver);
    assert_eq!(long, Err(SolveError::Unfillable));
}

#[test]
fn grids_are_rendered() {
    let grid = generate_grid_config_from_template_string(
        list_of(&["abc", "bxy"]),
        "...#Z\n#.###\n#.###",
        50,
        &FlatScorer,
    );
    let config = grid.to_config_ref();
    assert_eq!(config.slot_configs.len(), 2);
    assert_eq!(render_grid(&config, &[]), "....z\n.....\n.....");
    let across = Choice {
        slot_id: 0,
        word_id: 0,
    };
    assert_eq!(render_grid(&config, &[across]), "abc.z\n.....\n.....");
    let down = Choice {
        slot_id: 1,
        word_id: 1,
    };
    assert_eq!(render_grid(&config, &[across, down]), "abc.z\n.x...\n.y...");
    // The last choice wins.
    let clashing = Choice {
        slot_id: 1,
        word_id: 0,
    };
    assert_eq!(render_grid(&config, &[across, clashing]), "aac.z\n.b...\n.c...");
    assert_eq!(render_grid(&config, &[clashing, across]), "abc.z\n.b...\n.c...");
}

#[test]
fn white_space_is_what_std_says() {
    for code in 0..=0x10ffff {
        if let Some(ch) = char::from_u32(code) {
            assert_eq!(check_white_space(ch), ch.is_whitespace());
        }
    }
}

#[test]
fn text_is_taken_apart_like_std_does() {
    for text in [
        "",
        "\n",
        "a",
        "a\n",
        "a\r\nb",
        "a\r",
        "a\n\r",
        "\r\n\r\n",
        "\n\n a \u{2029}\n",
        " \t x y\u{3000}",
        "ä\u{1f600}\nz\r\r\n",
    ] {
        let chars = chars_of(text);
        assert_eq!(text_of(&chars), text);
        let lines: Vec<String> = split_lines(&chars).iter().map(|line| text_of(line)).collect();
        assert_eq!(lines, text.lines().map(String::from).collect::<Vec<_>>());
        assert_eq!(text_of(&trim_chars(&chars)), text.trim());
        let parts: Vec<String> =
            split_chars(&chars, 'a').iter().map(|part| text_of(part)).collect();
        assert_eq!(parts, text.split('a').map(String::from).collect::<Vec<_>>());
        assert_eq!(replace_char(text, 'a', '#'), text.replace('a', "#"));
        assert_eq!(starts_with(text, "a\r"), text.starts_with("a\r"));
        assert!(is_text(&chars, text));
        assert!(!is_text(&chars, "other"));
        assert_eq!(parse_usize(&chars), text.parse().ok());
    }
}

#[test]
fn texts_of_grids_are_filled() {
    let words = ["abc", "def", "ghi", "adg", "beh", "cfi", "xyz"];
    let fill = |content: &str, words: &[&str], min_score, limit| {
        fill_grid_text(
            content,
            list_of(words),
            min_score,
            limit,
            &FlatScorer,
            &mut PlainDriver,
        )
    };
    let filled = fill(" A..\n...\n...\n", &words, None, Some(3)).unwrap();
    assert!(filled == "abc\ndef\nghi" || filled == "adg\nbeh\ncfi");
    assert_eq!(fill("", &words, None, None), Err(FillError::Grid(GridError::NoRows)));
    assert_eq!(
        fill("..\n...", &words, None, Some(2)),
        Err(FillError::Grid(GridError::UnevenRows))
    );
    assert_eq!(
        fill("...", &[], None, Some(2)),
        Err(FillError::Grid(GridError::BadSharedSubstring))
    );
    assert_eq!(fill("...", &[], None, None), Err(FillError::NoWords));
    assert_eq!(fill("...", &["abc"], Some(50), None), Ok(String::from("abc")));
    let unfillable = Err(FillError::Solve(SolveError::Unfillable));
    assert_eq!(fill("...", &["abc"], Some(51), None), unfillable);
    assert_eq!(FillError::NoWords.message(), "Word list is empty");
    assert_eq!(FillError::Grid(GridError::NoRows).message(), "Grid must have at least one row");
    assert_eq!(FillError::Solve(SolveError::Unfillable).message(), "Unfillable grid");
    assert_eq!(
        FillError::Solve(SolveError::TooManyWords).message(),
        "Too many words in word list"
    );
    assert_eq!(
        FillError::Solve(SolveError::BadTemplate).message(),
        "Rows in grid must all be the same length"
    );
}

#[test]
fn templates_are_shown_in_lowercase() {
    let grid = generate_grid_config_from_template_string(
        list_of(&[]),
        "A.c\n##Z\nxYz",
        50,
        &FlatScorer,
    );
    assert_eq!(render_grid(&grid.to_config_ref(), &[]), "a.c\n..z\nxyz");
}

fn fill_page(
    grid: &str,
    words: &str,
    min_score: Option<u16>,
    limit: Option<usize>,
) -> Result<String, String> {
    fill_grid_content(grid, words, min_score, limit, &FlatScorer, &mut PlainDriver)
}

fn fill_file(
    grid: &str,
    words: &str,
    min_score: u16,
    limit: Option<usize>,
) -> Result<String, String> {
    fill_file_content(grid, words, min_score, limit, &FlatScorer, &mut PlainDriver)
}

#[test]
fn contents_are_filled() {
    let words = "abc;50\ndef;50\nghi;50\nadg;50\nbeh;50\ncfi;50\n";
    for filled in [
        fill_page("A..\n...\n...\n", words, None, None).unwrap(),
        fill_file(" A..\n  ...\n...\n", words, 50, Some(3)).unwrap(),
    ] {
        assert!(filled == "abc\ndef\nghi" || filled == "adg\nbeh\ncfi");
    }
    // The last line of a word counts.
    assert_eq!(fill_page("...", "abc;10\nabc;60", Some(60), None), Ok(String::from("abc")));
    assert!(fill_page("...", "abc;60\nabc;10", Some(60), None).is_err());
}

#[test]
fn the_first_error_is_reported() {
    let unfillable = Err(String::from("Unfillable grid"));
    let empty = Err(String::from("Word list is empty"));
    let line = Err(String::from("invalid line in word list: abc"));
    let lines = Err(String::from(
        "\n- invalid line in word list: abc\n- invalid line in word list: ;1",
    ));
    let limit = Err(GridError::BadSharedSubstring.message());
    let uneven = Err(GridError::UnevenRows.message());
    let none = Err(GridError::NoRows.message());
    assert_eq!(fill_page("", "abc", None, Some(2)), none);
    assert_eq!(fill_page("..\n.", "abc", None, Some(2)), uneven);
    assert_eq!(fill_page("...", "abc", None, Some(2)), limit);
    assert_eq!(fill_page("...", "abc", None, None), line);
    assert_eq!(fill_page("...", "abc\ndef;50\n;1", None, None), lines);
    assert_eq!(fill_page("...", "\n \n", None, None), empty);
    assert_eq!(fill_page("...", "abc;49", None, None), unfillable);
    assert_eq!(fill_file("..\n.", "abc", 50, Some(2)), uneven);
    assert_eq!(fill_file("...", "abc", 50, Some(11)), limit);
    assert_eq!(fill_file("...", "abc", 50, None), line);
    assert_eq!(fill_file("...", "abc\ndef;50\n;1", 50, None), lines);
    // Words that are too long for the grid are not even listed.
    assert_eq!(fill_file("...", "abcd;50", 50, None), empty);
    assert_eq!(fill_page("...", "abcd;50", None, None), unfillable);
    assert_eq!(fill_file("...", "abc;49", 50, None), unfillable);
}

#[test]
fn the_default_score_is_fifty() {
    for words in ["abc;49", "abc;50", "abc;51"] {
        assert_eq!(
            fill_page("...", words, None, None),
            fill_page("...", words, Some(50), None)
        );
    }
}

#[test]
fn the_limit_keeps_words_apart() {
    // Three letters in a row are in common.
    let grid = ".....\n#####\n.....";
    let words = "shout;50\nouter;50";
    assert!(fill_page(grid, words, None, None).is_ok());
    assert!(fill_page(grid, words, None, Some(3)).is_ok());
    assert!(fill_file(grid, words, 50, Some(3)).is_ok());
    // Four letters in a row are in common.
    let words = "shore;50\nhorea;50";
    assert!(fill_page(grid, words, None, None).is_ok());
    assert!(fill_page(grid, words, None, Some(4)).is_ok());
    let unfillable = Err(String::from("Unfillable grid"));
    assert_eq!(fill_page(grid, words, None, Some(3)), unfillable);
    assert_eq!(fill_file(grid, words, 50, Some(3)), unfillable);
}
