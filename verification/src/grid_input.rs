//! From the text of a grid to the text of the filled grid.

use crate::backtracking_search::{
    are_retried, find_fill, find_fill_wasm, is_complete_fill, start_state, FillSuccess, SearchDriver,
    INITIAL_MAX_BACKTRACKS, MAX_RETRIES,
};
use crate::counting::product;
use crate::fill_model::fillable;
use crate::grid_config::{Choice, Direction, GridConfig, OwnedGridConfig, SlotSpec};
use crate::grid_setup::{
    are_contents, flattened, generate_grid_config_from_template_string, is_grid_of,
    is_grid_of_template, suits_template,
};
use crate::grid_template::{
    are_template_slots, columns, is_template, is_template_slot, nonblank, read_template,
    template_rows, texts_of,
};
use crate::option_order::FillScorer;
use crate::render::{cells_text, is_showable, lemma_fill_showable, render_grid, with_choices};
use crate::search_model::sizes;
use crate::slot_options::{adds_hidden, lemma_adds_hidden_again};
use crate::text::{
    chars_of, replace_char, replaced, same_texts, split, split_lines, starts_with, text_lines,
    text_of, trim_chars, trimmed,
};
use crate::types::GlobalWordId;
use crate::word_list::WordList;
use crate::word_source::{line_errors, listed_score, load_words};
use unicode_normalization::UnicodeNormalization;
use vstd::prelude::*;

verus! {

/// The minimum score of words if none is given.
pub const DEFAULT_MIN_SCORE: u16 = 50;

/// Normalization Form C of a text.
pub uninterp spec fn nfc_of(text: Seq<char>) -> Seq<char>;

/// Normalization Form KD of a text.
pub uninterp spec fn nfkd_of(text: Seq<char>) -> Seq<char>;

/// A text in lowercase.
pub uninterp spec fn lowercase_text_of(text: Seq<char>) -> Seq<char>;

/// Calls `UnicodeNormalization::nfc`, which composes characters. Claimed is only that the result
/// depends on nothing but the text.
#[verifier::external_body]
fn compose(text: &str) -> (result: String)
    ensures
        result@ == nfc_of(text@),
{
    text.nfc().collect()
}

/// Calls `UnicodeNormalization::nfkd`, which decomposes characters. Claimed is only that the result
/// depends on nothing but the text.
#[verifier::external_body]
fn decompose(text: &str) -> (result: String)
    ensures
        result@ == nfkd_of(text@),
{
    text.nfkd().collect()
}

/// Calls `str::to_lowercase`. Claimed is only that the result depends on nothing but the text.
#[verifier::external_body]
pub(crate) fn lowercase(text: &str) -> (result: String)
    ensures
        result@ == lowercase_text_of(text@),
{
    text.to_lowercase()
}

/// A line of a grid, ready to be read.
pub open spec fn normalized_line(line: Seq<char>) -> Seq<char> {
    nfc_of(lowercase_text_of(trimmed(line)))
}

/// The lines one after the other, each with a line break at its end.
pub open spec fn normalized_lines(lines: Seq<Seq<char>>) -> Seq<char>
    decreases lines.len(),
{
    if lines.len() == 0 {
        Seq::empty()
    } else {
        (normalized_lines(lines.drop_last()) + normalized_line(lines.last())).push('\n')
    }
}

/// The text of a grid, line by line, without the white space around the lines, in lowercase and
/// with characters composed.
pub open spec fn normalized_grid(content: Seq<char>) -> Seq<char> {
    let lines = text_lines(trimmed(content));
    if lines.len() == 0 {
        seq!['\n']
    } else {
        normalized_lines(lines)
    }
}

/// Prepare the text of a grid that was read from a file.
pub fn normalize_grid(content: &str) -> (text: String)
    ensures
        text@ == normalized_grid(content@),
{
    let chars: Vec<char> = trim_chars(&chars_of(content));
    let lines: Vec<Vec<char>> = split_lines(&chars);
    let ghost texts = text_lines(trimmed(content@));
    let mut text: String = String::new();
    let mut i: usize = 0;
    proof {
        assert(text@ =~= normalized_lines(texts.take(0)));
    }
    while i < lines.len()
        invariant
            same_texts(lines@, texts),
            0 <= i <= lines@.len(),
            text@ == normalized_lines(texts.take(i as int)),
        decreases lines@.len() - i,
    {
        let line: String = text_of(trim_chars(&lines[i]).as_slice());
        let lowered: String = lowercase(line.as_str());
        text.append(compose(lowered.as_str()).as_str());
        text.push('\n');
        proof {
            assert(texts.take(i + 1).drop_last() =~= texts.take(i as int));
            assert(texts.take(i + 1).last() == lines@[i as int]@);
        }
        i = i + 1;
    }
    assert(texts.take(i as int) =~= texts);
    if lines.len() == 0 {
        text.push('\n');
        assert(text@ =~= seq!['\n']);
    }
    text
}

/// Prepare the text of a grid that was passed in from a web page.
pub fn normalize_grid_wasm(content: &str) -> (text: String)
    ensures
        text@ == normalized_page(content@),
{
    let chars: Vec<char> = trim_chars(&chars_of(content));
    let text: String = text_of(chars.as_slice());
    lowercase(decompose(text.as_str()).as_str())
}

/// Why a grid is turned down.
#[derive(Debug, Clone, Copy, PartialEq, Eq, Structural)]
pub enum GridError {
    NoRows,
    UnevenRows,
    BadSharedSubstring,
}

impl GridError {
    /// What is said of the error.
    pub open spec fn text(self) -> Seq<char> {
        match self {
            GridError::NoRows => "Grid must have at least one row"@,
            GridError::UnevenRows => "Rows in grid must all be the same length"@,
            GridError::BadSharedSubstring =>
                "If given, max shared substring must be between 3 and 10"@,
        }
    }

    /// Describe the error.
    pub fn message(&self) -> (message: String)
        ensures
            message@ == self.text(),
    {
        match self {
            GridError::NoRows => "Grid must have at least one row".to_owned(),
            GridError::UnevenRows => "Rows in grid must all be the same length".to_owned(),
            GridError::BadSharedSubstring =>
                "If given, max shared substring must be between 3 and 10".to_owned(),
        }
    }
}

/// All lines have the same number of characters.
pub open spec fn is_even(lines: Seq<Seq<char>>) -> bool {
    forall|i: int, k: int|
        0 <= i < lines.len() && 0 <= k < lines.len() ==> (#[trigger] lines[i]).len() == (
        #[trigger] lines[k]).len()
}

/// The limit on shared substrings is one that is supported.
pub open spec fn is_supported_limit(max_shared_substring: Option<usize>) -> bool {
    match max_shared_substring {
        Some(limit) => 3 <= limit <= 10,
        None => true,
    }
}

/// What is wrong with a grid.
pub open spec fn grid_error(
    lines: Seq<Seq<char>>,
    max_shared_substring: Option<usize>,
) -> Option<GridError> {
    if lines.len() == 0 {
        Some(GridError::NoRows)
    } else if !is_even(lines) {
        Some(GridError::UnevenRows)
    } else if !is_supported_limit(max_shared_substring) {
        Some(GridError::BadSharedSubstring)
    } else {
        None
    }
}

/// The number of columns and rows of a grid.
#[derive(Debug, Clone, Copy, PartialEq, Eq, Structural)]
pub struct GridShape {
    pub width: usize,
    pub height: usize,
}

/// Check that a grid and the limit on shared substrings make sense.
pub fn check_grid(text: &str, max_shared_substring: Option<usize>) -> (result: Result<
    GridShape,
    GridError,
>)
    ensures
        match result {
            Ok(shape) => {
                &&& grid_error(text_lines(text@), max_shared_substring) is None
                &&& shape.height == text_lines(text@).len()
                &&& shape.width == text_lines(text@)[0].len()
            },
            Err(error) => grid_error(text_lines(text@), max_shared_substring) == Some(error),
        },
{
    let lines: Vec<Vec<char>> = split_lines(&chars_of(text));
    let ghost texts = text_lines(text@);
    let height: usize = lines.len();
    if height == 0 {
        return Err(GridError::NoRows);
    }
    let width: usize = lines[0].len();
    let mut i: usize = 0;
    while i < height
        invariant
            same_texts(lines@, texts),
            height == lines@.len(),
            height > 0,
            width == texts[0].len(),
            texts == text_lines(text@),
            0 <= i <= height,
            forall|k: int| 0 <= k < i ==> (#[trigger] texts[k]).len() == width,
        decreases height - i,
    {
        if lines[i].len() != width {
            proof {
                assert(texts[i as int].len() != texts[0].len());
                assert(!is_even(texts));
            }
            return Err(GridError::UnevenRows);
        }
        assert(lines@[i as int]@ == texts[i as int]);
        i = i + 1;
    }
    assert(is_even(texts));
    if let Some(limit) = max_shared_substring {
        if limit < 3 || limit > 10 {
            return Err(GridError::BadSharedSubstring);
        }
    }
    Ok(GridShape { width, height })
}

/// The length of the longest words that are needed for a grid.
pub fn max_side(shape: GridShape) -> (length: usize)
    ensures
        length == if shape.width > shape.height {
            shape.width
        } else {
            shape.height
        },
{
    if shape.width > shape.height {
        shape.width
    } else {
        shape.height
    }
}

/// The number of glyphs in a row that two words have to share to count as dupes. Words may share as
/// many as the limit says.
pub fn dupe_window(max_shared_substring: Option<usize>) -> (window: usize)
    requires
        is_supported_limit(max_shared_substring),
    ensures
        window == match max_shared_substring {
            Some(limit) => limit + 1,
            None => 0,
        },
{
    match max_shared_substring {
        Some(limit) => limit + 1,
        None => 0,
    }
}

/// Is a word list to be fetched from the network, rather than read from a file?
pub fn is_url(source: &str) -> (result: bool)
    ensures
        result == ("http://"@.is_prefix_of(source@) || "https://"@.is_prefix_of(source@)),
{
    starts_with(source, "http://") || starts_with(source, "https://")
}

/// The errors as a list, each on a line of its own.
pub open spec fn error_list(errors: Seq<Seq<char>>) -> Seq<char>
    decreases errors.len(),
{
    if errors.len() == 0 {
        Seq::empty()
    } else {
        error_list(errors.drop_last()) + "\n- "@ + errors.last()
    }
}

/// What is said of errors: a single one is shown as it is, more of them as a list.
pub open spec fn combined_errors(errors: Seq<Seq<char>>) -> Seq<char> {
    if errors.len() == 1 {
        errors[0]
    } else {
        error_list(errors)
    }
}

/// The texts of errors.
pub open spec fn texts_of_errors(errors: Seq<String>) -> Seq<Seq<char>> {
    errors.map_values(|error: String| error@)
}

/// Combine the errors of a word list: a single one is shown as it is, more of them as a list.
pub fn combine_errors(errors: &Vec<String>) -> (message: Option<String>)
    ensures
        match message {
            Some(message) => errors@.len() > 0 && message@ == combined_errors(
                texts_of_errors(errors@),
            ),
            None => errors@.len() == 0,
        },
{
    if errors.len() == 0 {
        return None;
    }
    if errors.len() == 1 {
        return Some(errors[0].clone());
    }
    let ghost texts = texts_of_errors(errors@);
    let mut message: String = String::new();
    let mut i: usize = 0;
    proof {
        assert(message@ =~= error_list(texts.take(0)));
    }
    while i < errors.len()
        invariant
            texts == texts_of_errors(errors@),
            0 <= i <= errors@.len(),
            message@ == error_list(texts.take(i as int)),
        decreases errors@.len() - i,
    {
        message.append("\n- ");
        message.append(errors[i].as_str());
        proof {
            assert(texts.take(i + 1).drop_last() =~= texts.take(i as int));
            assert(texts.take(i + 1).last() == errors@[i as int]@);
        }
        i = i + 1;
    }
    assert(texts.take(i as int) =~= texts);
    Some(message)
}

/// Why a grid was not filled.
#[derive(Debug, Clone, Copy, PartialEq, Eq, Structural)]
pub enum SolveError {
    /// The template has no rows, or one that is shorter than the first.
    BadTemplate,
    /// There are more words of a length than can be counted.
    TooManyWords,
    /// There is no fill.
    Unfillable,
}

/// There are more words of some length than can be counted.
pub open spec fn has_too_many_words(word_list: WordList) -> bool {
    exists|n: int|
        0 <= n < word_list.words@.len() && (#[trigger] word_list.words@[n])@.len() > u32::MAX
}

/// Make sure that the words of every length can be counted.
fn check_word_counts(word_list: &WordList) -> (result: bool)
    ensures
        result == !has_too_many_words(*word_list),
{
    let mut n: usize = 0;
    while n < word_list.words.len()
        invariant
            0 <= n <= word_list.words@.len(),
            forall|m: int| 0 <= m < n ==> (#[trigger] word_list.words@[m])@.len() <= u32::MAX,
        decreases word_list.words@.len() - n,
    {
        if word_list.words[n].len() as u128 > u32::MAX as u128 {
            assert(word_list.words@[n as int]@.len() > u32::MAX);
            return false;
        }
        n = n + 1;
    }
    true
}

/// The length of the longest line, or the number of lines if that is larger, provided that the lines
/// are those of a template.
fn longest_side(rows: &Vec<Vec<char>>) -> (side: Option<usize>)
    ensures
        match side {
            Some(side) => {
                &&& is_template(texts_of(rows@))
                &&& rows@.len() <= side
                &&& forall|y: int| 0 <= y < rows@.len() ==> (#[trigger] rows@[y])@.len() <= side
            },
            None => !is_template(texts_of(rows@)),
        },
{
    if rows.len() == 0 {
        return None;
    }
    let ghost texts = texts_of(rows@);
    let width: usize = rows[0].len();
    let mut side: usize = rows.len();
    let mut y: usize = 0;
    while y < rows.len()
        invariant
            texts == texts_of(rows@),
            rows@.len() > 0,
            width == texts[0].len(),
            0 <= y <= rows@.len(),
            rows@.len() <= side,
            forall|k: int| 0 <= k < y ==> (#[trigger] rows@[k])@.len() <= side,
            forall|k: int| 0 <= k < y ==> (#[trigger] texts[k]).len() >= width,
        decreases rows@.len() - y,
    {
        let length: usize = rows[y].len();
        assert(texts[y as int] == rows@[y as int]@);
        if length < width {
            return None;
        }
        if length > side {
            side = length;
        }
        y = y + 1;
    }
    Some(side)
}

/// A word list with room for the longest side of a template suits it.
proof fn lemma_suits(word_list: WordList, rows: Seq<Vec<char>>, side: int)
    requires
        is_template(texts_of(rows)),
        rows.len() <= side,
        forall|y: int| 0 <= y < rows.len() ==> (#[trigger] rows[y])@.len() <= side,
        side < word_list.words@.len(),
        !has_too_many_words(word_list),
    ensures
        suits_template(word_list, texts_of(rows)),
{
    let texts = texts_of(rows);
    assert forall|slot: SlotSpec| #[trigger]
        is_template_slot(texts, slot) implies slot.length < word_list.words@.len() by {
        match slot.direction {
            Direction::Across => {
                let y = slot.start_cell.1 as int;
                assert(texts[y] == rows[y]@);
            },
            Direction::Down => {
                assert(columns(texts)[slot.start_cell.0 as int].len() == rows.len());
            },
        }
    }
}

/// Generate a grid from a template, after making sure that this is possible.
pub fn prepare_grid<S: FillScorer>(
    word_list: WordList,
    template: &str,
    min_score: u16,
    scorer: &S,
) -> (result: Result<OwnedGridConfig, SolveError>)
    requires
        word_list.wf(),
    ensures
        match result {
            Ok(grid) => {
                &&& grid.wf()
                &&& is_template(template_rows(template@))
                &&& is_grid_of_template(
                    grid,
                    word_list,
                    template_rows(template@),
                    min_score,
                    scorer,
                )
            },
            Err(SolveError::BadTemplate) => !is_template(template_rows(template@)),
            Err(SolveError::TooManyWords) => has_too_many_words(word_list),
            Err(SolveError::Unfillable) => false,
        },
{
    let rows: Vec<Vec<char>> = read_template(template);
    assert(texts_of(rows@) =~= template_rows(template@));
    let side: usize = match longest_side(&rows) {
        Some(side) => side,
        None => {
            return Err(SolveError::BadTemplate);
        },
    };
    if !check_word_counts(&word_list) {
        return Err(SolveError::TooManyWords);
    }
    let ghost given = word_list;
    let mut word_list: WordList = word_list;
    word_list.add_buckets(side);
    proof {
        assert(adds_hidden(word_list, given)) by {
            assert forall|id: GlobalWordId| #[trigger] given.has_word(id) == word_list.has_word(
                id,
            ) && (given.has_word(id) ==> word_list.word(id) == given.word(id)) by {
                if (id.0 as int) < given.words@.len() {
                    assert(word_list.words@[id.0 as int] == given.words@[id.0 as int]);
                }
            }
        }
        assert(!has_too_many_words(word_list)) by {
            assert forall|n: int| 0 <= n < word_list.words@.len() implies (
            #[trigger] word_list.words@[n])@.len() <= u32::MAX by {
                if n < given.words@.len() {
                    assert(word_list.words@[n] == given.words@[n]);
                    assert(given.words@[n]@.len() <= u32::MAX);
                }
            }
        }
        lemma_suits(word_list, rows@, side as int);
    }
    let ghost roomy = word_list;
    let grid: OwnedGridConfig = generate_grid_config_from_template_string(
        word_list,
        template,
        min_score,
        scorer,
    );
    proof {
        let texts = template_rows(template@);
        let (slots, raw_fill) = choose|slots: Seq<SlotSpec>, raw_fill: Seq<Option<String>>|
            #![trigger are_template_slots(texts, slots), are_contents(flattened(texts), raw_fill)]
            are_template_slots(texts, slots) && are_contents(flattened(texts), raw_fill)
                && is_grid_of(grid, roomy, slots, raw_fill, min_score, scorer);
        lemma_adds_hidden_again(given, roomy, grid.word_list);
        assert(is_grid_of(grid, given, slots, raw_fill, min_score, scorer));
    }
    Ok(grid)
}

/// Rows of a template are not empty.
proof fn lemma_nonblank(texts: Seq<Seq<char>>, i: int)
    requires
        0 <= i < nonblank(texts).len(),
    ensures
        nonblank(texts)[i].len() > 0,
    decreases texts.len(),
{
    if texts.len() > 0 {
        let earlier = nonblank(texts.drop_last());
        if i < earlier.len() {
            lemma_nonblank(texts.drop_last(), i);
        }
    }
}

/// The text shows the choices in a grid, with a block wherever no letter is.
pub open spec fn shows(config: GridConfig, choices: Seq<Choice>, text: Seq<char>) -> bool {
    text == replaced(
        cells_text(
            with_choices(config, choices),
            config.width as int,
            config.fill@.len() as int,
        ),
        '.',
        '#',
    )
}

/// The text shows a fill of the grid.
pub open spec fn is_solution<S: FillScorer>(
    word_list: WordList,
    template: Seq<char>,
    min_score: u16,
    scorer: &S,
    text: Seq<char>,
) -> bool {
    exists|grid: OwnedGridConfig, config: GridConfig, choices: Seq<Choice>|
        #![trigger config.is_view_of(grid), is_complete_fill(config, choices)]
        grid.wf() && is_grid_of_template(
            grid,
            word_list,
            template_rows(template),
            min_score,
            scorer,
        ) && config.is_view_of(grid) && is_complete_fill(config, choices) && shows(
            config,
            choices,
            text,
        )
}

/// The grid that the template describes has no fill.
pub open spec fn has_no_solution<S: FillScorer>(
    word_list: WordList,
    template: Seq<char>,
    min_score: u16,
    scorer: &S,
) -> bool {
    exists|grid: OwnedGridConfig, config: GridConfig| #[trigger]
        config.is_view_of(grid) && grid.wf() && is_grid_of_template(
            grid,
            word_list,
            template_rows(template),
            min_score,
            scorer,
        ) && !fillable(config)
}

/// Attempts to fill the grid that the template describes need more backtracks than they may have, as
/// often as is tried. The grid has many combinations of words.
pub open spec fn is_given_up<S: FillScorer, D: SearchDriver>(
    word_list: WordList,
    template: Seq<char>,
    min_score: u16,
    scorer: &S,
) -> bool {
    exists|grid: OwnedGridConfig, config: GridConfig| #[trigger]
        config.is_view_of(grid) && grid.wf() && is_grid_of_template(
            grid,
            word_list,
            template_rows(template),
            min_score,
            scorer,
        ) && are_retried::<D>(config, None, MAX_RETRIES as nat) && INITIAL_MAX_BACKTRACKS + MAX_RETRIES
            <= product(sizes(config, start_state(config)))
}

/// What a search for a fill of the template's grid may come to, with or without a limit on the number
/// of attempts.
pub open spec fn is_solved<S: FillScorer, D: SearchDriver>(
    word_list: WordList,
    template: Seq<char>,
    min_score: u16,
    scorer: &S,
    limited: bool,
    result: Result<Seq<char>, SolveError>,
) -> bool {
    match result {
        Ok(text) => is_solution(word_list, template, min_score, scorer, text),
        Err(SolveError::BadTemplate) => !is_template(template_rows(template)),
        Err(SolveError::TooManyWords) => has_too_many_words(word_list),
        Err(SolveError::Unfillable) => has_no_solution(word_list, template, min_score, scorer) || (
        limited && is_given_up::<S, D>(word_list, template, min_score, scorer)),
    }
}

/// The text of a result.
pub open spec fn text_result<E>(result: Result<String, E>) -> Result<Seq<char>, E> {
    match result {
        Ok(text) => Ok(text@),
        Err(error) => Err(error),
    }
}

/// Show a fill of a grid, with blocks in place of the cells without letters.
fn show_fill(config: &GridConfig, choices: &Vec<Choice>) -> (text: String)
    requires
        config.width > 0,
        is_showable(*config, choices@),
    ensures
        shows(*config, choices@, text@),
{
    let rendered: String = render_grid(config, choices.as_slice());
    replace_char(rendered.as_str(), '.', '#')
}

/// What is known of a generated grid.
proof fn lemma_grid_shown<S: FillScorer>(
    grid: OwnedGridConfig,
    config: GridConfig,
    word_list: WordList,
    template: Seq<char>,
    min_score: u16,
    scorer: &S,
    choices: Seq<Choice>,
)
    requires
        grid.wf(),
        config.is_view_of(grid),
        is_template(template_rows(template)),
        is_grid_of_template(grid, word_list, template_rows(template), min_score, scorer),
        is_complete_fill(config, choices),
    ensures
        config.width > 0,
        is_showable(config, choices),
{
    let rows = template_rows(template);
    lemma_nonblank(split(template, '\n'), 0);
    let (slots, raw_fill) = choose|slots: Seq<SlotSpec>, raw_fill: Seq<Option<String>>|
        #![trigger are_template_slots(rows, slots), are_contents(flattened(rows), raw_fill)]
        are_template_slots(rows, slots) && are_contents(flattened(rows), raw_fill) && is_grid_of(
            grid,
            word_list,
            slots,
            raw_fill,
            min_score,
            scorer,
        );
    assert forall|i: int| 0 <= i < config.fill@.len() implies match #[trigger] config.fill@[i] {
        Some(glyph) => glyph < config.word_list.glyphs@.len(),
        None => true,
    } by {
        assert(grid.fill@[i] == config.fill@[i]);
    }
    lemma_fill_showable(config, choices);
}

/// Fill a grid and show it, using the words that are good enough.
pub fn solve_grid<S: FillScorer, D: SearchDriver>(
    word_list: WordList,
    template: &str,
    min_score: u16,
    scorer: &S,
    driver: &mut D,
) -> (result: Result<String, SolveError>)
    requires
        word_list.wf(),
    ensures
        is_solved::<S, D>(
            word_list,
            template@,
            min_score,
            scorer,
            false,
            text_result(result),
        ),
{
    let grid: OwnedGridConfig = prepare_grid(word_list, template, min_score, scorer)?;
    let config: GridConfig = grid.to_config_ref();
    match find_fill(&config, None, driver) {
        Ok(success) => {
            let success: FillSuccess = success;
            proof {
                lemma_grid_shown(
                    grid,
                    config,
                    word_list,
                    template@,
                    min_score,
                    scorer,
                    success.choices@,
                );
            }
            Ok(show_fill(&config, &success.choices))
        },
        Err(_) => Err(SolveError::Unfillable),
    }
}

/// Fill a grid and show it where there is no clock and the number of attempts is limited.
pub fn solve_grid_wasm<S: FillScorer, D: SearchDriver>(
    word_list: WordList,
    template: &str,
    min_score: u16,
    scorer: &S,
    driver: &mut D,
) -> (result: Result<String, SolveError>)
    requires
        word_list.wf(),
    ensures
        is_solved::<S, D>(
            word_list,
            template@,
            min_score,
            scorer,
            true,
            text_result(result),
        ),
{
    let grid: OwnedGridConfig = prepare_grid(word_list, template, min_score, scorer)?;
    let config: GridConfig = grid.to_config_ref();
    match find_fill_wasm(&config, driver) {
        Ok(success) => {
            let success: FillSuccess = success;
            proof {
                lemma_grid_shown(
                    grid,
                    config,
                    word_list,
                    template@,
                    min_score,
                    scorer,
                    success.choices@,
                );
            }
            Ok(show_fill(&config, &success.choices))
        },
        Err(_) => Err(SolveError::Unfillable),
    }
}

/// Why the text of a grid was not filled.
#[derive(Debug, Clone, Copy, PartialEq, Eq, Structural)]
pub enum FillError {
    /// The grid or the limit on shared substrings makes no sense.
    Grid(GridError),
    /// There are no words.
    NoWords,
    /// The grid was not filled.
    Solve(SolveError),
}

impl FillError {
    /// What is said of the error.
    pub open spec fn text(self) -> Seq<char> {
        match self {
            FillError::Grid(error) => error.text(),
            FillError::NoWords => "Word list is empty"@,
            FillError::Solve(SolveError::BadTemplate) => GridError::UnevenRows.text(),
            FillError::Solve(SolveError::TooManyWords) => "Too many words in word list"@,
            FillError::Solve(SolveError::Unfillable) => "Unfillable grid"@,
        }
    }

    /// Describe the error.
    pub fn message(&self) -> (message: String)
        ensures
            message@ == self.text(),
    {
        match self {
            FillError::Grid(error) => error.message(),
            FillError::NoWords => "Word list is empty".to_owned(),
            FillError::Solve(SolveError::BadTemplate) => GridError::UnevenRows.message(),
            FillError::Solve(SolveError::TooManyWords) => "Too many words in word list".to_owned(),
            FillError::Solve(SolveError::Unfillable) => "Unfillable grid".to_owned(),
        }
    }
}

/// The list has no words.
pub open spec fn has_no_words(word_list: WordList) -> bool {
    forall|id: GlobalWordId| !#[trigger] word_list.has_word(id)
}

/// What filling the text of a grid may come to. The first error that applies is given.
pub open spec fn is_answer<S: FillScorer, D: SearchDriver>(
    word_list: WordList,
    template: Seq<char>,
    min_score: u16,
    max_shared_substring: Option<usize>,
    scorer: &S,
    limited: bool,
    result: Result<Seq<char>, FillError>,
) -> bool {
    match grid_error(text_lines(template), max_shared_substring) {
        Some(error) => result == Err::<Seq<char>, FillError>(FillError::Grid(error)),
        None => if has_no_words(word_list) {
            result == Err::<Seq<char>, FillError>(FillError::NoWords)
        } else {
            match result {
                Ok(text) => is_solved::<S, D>(
                    word_list,
                    template,
                    min_score,
                    scorer,
                    limited,
                    Ok(text),
                ),
                Err(FillError::Solve(error)) => is_solved::<S, D>(
                    word_list,
                    template,
                    min_score,
                    scorer,
                    limited,
                    Err(error),
                ),
                Err(_) => false,
            }
        },
    }
}

/// The minimum score, or the default one if none is given.
pub open spec fn score_or_default(min_score: Option<u16>) -> u16 {
    match min_score {
        Some(min_score) => min_score,
        None => DEFAULT_MIN_SCORE,
    }
}

/// The text of a grid that was passed in from a web page, ready to be read.
pub open spec fn normalized_page(content: Seq<char>) -> Seq<char> {
    lowercase_text_of(nfkd_of(trimmed(content)))
}

/// Fill a grid that was passed in from a web page and show it. Without a minimum score, the default
/// one is used.
pub fn fill_grid_text<S: FillScorer, D: SearchDriver>(
    grid_content: &str,
    word_list: WordList,
    min_score: Option<u16>,
    max_shared_substring: Option<usize>,
    scorer: &S,
    driver: &mut D,
) -> (result: Result<String, FillError>)
    requires
        word_list.wf(),
    ensures
        is_answer::<S, D>(
            word_list,
            normalized_page(grid_content@),
            score_or_default(min_score),
            max_shared_substring,
            scorer,
            true,
            text_result(result),
        ),
{
    let template: String = normalize_grid_wasm(grid_content);
    match check_grid(template.as_str(), max_shared_substring) {
        Ok(_) => {},
        Err(error) => {
            return Err(FillError::Grid(error));
        },
    }
    if word_list.is_empty() {
        return Err(FillError::NoWords);
    }
    let min_score: u16 = match min_score {
        Some(min_score) => min_score,
        None => DEFAULT_MIN_SCORE,
    };
    match solve_grid_wasm(word_list, template.as_str(), min_score, scorer, driver) {
        Ok(text) => Ok(text),
        Err(error) => Err(FillError::Solve(error)),
    }
}

/// The window of glyphs that makes words dupes, for a limit on shared substrings.
pub open spec fn window_for(max_shared_substring: Option<usize>) -> nat {
    match max_shared_substring {
        Some(limit) => (limit + 1) as nat,
        None => 0,
    }
}

/// The list has the words that the contents describe, and words are dupes if they share more glyphs in
/// a row than the limit allows.
pub open spec fn is_list_of(
    word_list: WordList,
    contents: Seq<char>,
    max_length: Option<usize>,
    max_shared_substring: Option<usize>,
) -> bool {
    let lines = text_lines(contents);
    &&& word_list.wf()
    &&& word_list.dupe_index.model().window == window_for(max_shared_substring)
    &&& word_list.dupe_index.model().extra == Map::<GlobalWordId, Seq<GlobalWordId>>::empty()
    &&& forall|word: Seq<char>| #[trigger]
        listed_score(lines, max_length, word) is Some ==> word_list.knows(word)
    &&& forall|id: GlobalWordId| #[trigger]
        word_list.has_word(id) ==> match listed_score(lines, max_length, word_list.text(id)) {
            Some(score) => word_list.word(id).score == score && word_list.word(id).letter_score == 0
                && !word_list.word(id).hidden,
            None => false,
        }
}

/// What is said in the end: what is wrong with the grid, or else with the word list, or else what
/// filling the grid comes to.
pub open spec fn is_said<S: FillScorer, D: SearchDriver>(
    template: Seq<char>,
    word_list_content: Seq<char>,
    min_score: u16,
    max_length: Option<usize>,
    max_shared_substring: Option<usize>,
    scorer: &S,
    limited: bool,
    result: Result<String, String>,
) -> bool {
    let errors = line_errors(text_lines(word_list_content));
    match grid_error(text_lines(template), max_shared_substring) {
        Some(error) => result matches Err(message) && message@ == error.text(),
        None => if errors.len() > 0 {
            result matches Err(message) && message@ == combined_errors(errors)
        } else {
            exists|word_list: WordList, answer: Result<Seq<char>, FillError>|
                #![trigger is_list_of(
                    word_list,
                    word_list_content,
                    max_length,
                    max_shared_substring,
                ), is_answer::<S, D>(
                    word_list,
                    template,
                    min_score,
                    max_shared_substring,
                    scorer,
                    limited,
                    answer,
                )]
                {
                    &&& is_list_of(word_list, word_list_content, max_length, max_shared_substring)
                    &&& is_answer::<S, D>(
                        word_list,
                        template,
                        min_score,
                        max_shared_substring,
                        scorer,
                        limited,
                        answer,
                    )
                    &&& match (result, answer) {
                        (Ok(text), Ok(shown)) => text@ == shown,
                        (Err(message), Err(error)) => message@ == error.text(),
                        _ => false,
                    }
                }
        },
    }
}

/// What filling a grid from a web page may come to.
pub open spec fn is_page_result<S: FillScorer, D: SearchDriver>(
    grid_content: Seq<char>,
    word_list_content: Seq<char>,
    min_score: Option<u16>,
    max_shared_substring: Option<usize>,
    scorer: &S,
    result: Result<String, String>,
) -> bool {
    is_said::<S, D>(
        normalized_page(grid_content),
        word_list_content,
        score_or_default(min_score),
        None,
        max_shared_substring,
        scorer,
        true,
        result,
    )
}

/// What filling a grid from a file may come to.
pub open spec fn is_file_result<S: FillScorer, D: SearchDriver>(
    grid_content: Seq<char>,
    word_list_content: Seq<char>,
    min_score: u16,
    max_shared_substring: Option<usize>,
    scorer: &S,
    result: Result<String, String>,
) -> bool {
    is_said::<S, D>(
        normalized_grid(grid_content),
        word_list_content,
        min_score,
        Some(longer_side(normalized_grid(grid_content))),
        max_shared_substring,
        scorer,
        false,
        result,
    )
}

/// Build a word list from its contents. If lines cannot be read, say which.
fn build_word_list(
    contents: &str,
    max_length: Option<usize>,
    max_shared_substring: Option<usize>,
) -> (result: Result<WordList, String>)
    requires
        is_supported_limit(max_shared_substring),
    ensures
        match result {
            Ok(word_list) => {
                &&& line_errors(text_lines(contents@)).len() == 0
                &&& is_list_of(word_list, contents@, max_length, max_shared_substring)
            },
            Err(message) => {
                let errors = line_errors(text_lines(contents@));
                errors.len() > 0 && message@ == combined_errors(errors)
            },
        },
{
    let mut word_list: WordList = WordList::new(0, dupe_window(max_shared_substring));
    let ghost empty = word_list;
    let errors: Vec<String> = load_words(&mut word_list, contents, max_length);
    let ghost messages = line_errors(text_lines(contents@));
    assert(texts_of_errors(errors@) =~= messages);
    match combine_errors(&errors) {
        Some(message) => Err(message),
        None => {
            proof {
                assert forall|id: GlobalWordId| !#[trigger] empty.has_word(id) by {}
            }
            Ok(word_list)
        },
    }
}

/// Fill a grid that was passed in from a web page with the words of a list, and show it or say what is
/// wrong. Without a minimum score, the default one is used.
pub fn fill_grid_content<S: FillScorer, D: SearchDriver>(
    grid_content: &str,
    word_list_content: &str,
    min_score: Option<u16>,
    max_shared_substring: Option<usize>,
    scorer: &S,
    driver: &mut D,
) -> (result: Result<String, String>)
    ensures
        is_page_result::<S, D>(
            grid_content@,
            word_list_content@,
            min_score,
            max_shared_substring,
            scorer,
            result,
        ),
{
    let template: String = normalize_grid_wasm(grid_content);
    match check_grid(template.as_str(), max_shared_substring) {
        Ok(_) => {},
        Err(error) => {
            return Err(error.message());
        },
    }
    let word_list: WordList = match build_word_list(word_list_content, None, max_shared_substring) {
        Ok(word_list) => word_list,
        Err(message) => {
            return Err(message);
        },
    };
    let ghost list = word_list;
    let result: Result<String, FillError> = fill_grid_text(
        grid_content,
        word_list,
        min_score,
        max_shared_substring,
        scorer,
        driver,
    );
    let ghost answer = text_result(result);
    assert(is_list_of(list, word_list_content@, None, max_shared_substring));
    match result {
        Ok(text) => Ok(text),
        Err(error) => Err(error.message()),
    }
}

/// Leaving out the minimum score is the same as asking for a score of 50: what filling a grid from a
/// web page may come to does not differ. A minimum score that is given is used as it is.
pub proof fn lemma_default_score<S: FillScorer, D: SearchDriver>(
    grid_content: Seq<char>,
    word_list_content: Seq<char>,
    max_shared_substring: Option<usize>,
    scorer: &S,
    result: Result<String, String>,
)
    ensures
        is_page_result::<S, D>(
            grid_content,
            word_list_content,
            None,
            max_shared_substring,
            scorer,
            result,
        ) == is_page_result::<S, D>(
            grid_content,
            word_list_content,
            Some(50),
            max_shared_substring,
            scorer,
            result,
        ),
        forall|min_score: u16| #[trigger] score_or_default(Some(min_score)) == min_score,
        score_or_default(None) == 50,
{
}

/// A grid is turned down exactly if it has no rows, or else its rows are not all equally long, or else
/// the limit on shared substrings is below 3 or above 10.
pub proof fn lemma_grid_error(lines: Seq<Seq<char>>, max_shared_substring: Option<usize>)
    ensures
        (grid_error(lines, max_shared_substring) == Some(GridError::NoRows)) == (lines.len() == 0),
        grid_error(lines, max_shared_substring) == Some(GridError::UnevenRows) ==> exists|i: int|
            0 <= i < lines.len() && (#[trigger] lines[i]).len() != lines[0].len(),
        (exists|i: int| 0 <= i < lines.len() && (#[trigger] lines[i]).len() != lines[0].len())
            ==> grid_error(lines, max_shared_substring) == Some(GridError::UnevenRows),
        grid_error(lines, max_shared_substring) == Some(GridError::BadSharedSubstring)
            ==> (max_shared_substring matches Some(limit) && (limit < 3 || limit > 10)),
        lines.len() > 0 && (forall|i: int|
            0 <= i < lines.len() ==> (#[trigger] lines[i]).len() == lines[0].len()) ==> (grid_error(
            lines,
            max_shared_substring,
        ) is None) == (max_shared_substring matches Some(limit) ==> 3 <= limit <= 10),
{
    if grid_error(lines, max_shared_substring) == Some(GridError::UnevenRows) {
        let (i, k) = choose|i: int, k: int|
            0 <= i < lines.len() && 0 <= k < lines.len() && (#[trigger] lines[i]).len() != (
            #[trigger] lines[k]).len();
        if lines[i].len() == lines[0].len() {
            assert(lines[k].len() != lines[0].len());
        }
    }
}

/// A single error stands alone. Two of them are a list, each on a line of its own that starts with a
/// dash, and every further one is added to the end of the list.
pub proof fn lemma_errors_listed(errors: Seq<Seq<char>>, first: Seq<char>, second: Seq<char>)
    ensures
        combined_errors(seq![first]) == first,
        combined_errors(seq![first, second]) == "\n- "@ + first + "\n- "@ + second,
        errors.len() >= 2 ==> combined_errors(errors.push(first)) == combined_errors(errors)
            + "\n- "@ + first,
{
    reveal_with_fuel(error_list, 3);
    assert(seq![first, second].drop_last() =~= seq![first]);
    assert(seq![first].drop_last() =~= Seq::empty());
    assert(Seq::<char>::empty() + "\n- "@ =~= "\n- "@);
    assert(errors.push(first).drop_last() =~= errors);
}

/// The length of the longer side of a grid.
pub open spec fn longer_side(text: Seq<char>) -> usize {
    let lines = text_lines(text);
    (if lines[0].len() > lines.len() {
        lines[0].len()
    } else {
        lines.len()
    }) as usize
}

/// Fill a grid that was read from a file with the words of a list, and show it or say what is wrong.
/// Words that are longer than the grid are left out.
pub fn fill_file_content<S: FillScorer, D: SearchDriver>(
    grid_content: &str,
    word_list_content: &str,
    min_score: u16,
    max_shared_substring: Option<usize>,
    scorer: &S,
    driver: &mut D,
) -> (result: Result<String, String>)
    ensures
        is_file_result::<S, D>(
            grid_content@,
            word_list_content@,
            min_score,
            max_shared_substring,
            scorer,
            result,
        ),
{
    let template: String = normalize_grid(grid_content);
    let ghost text = normalized_grid(grid_content@);
    let shape: GridShape = match check_grid(template.as_str(), max_shared_substring) {
        Ok(shape) => shape,
        Err(error) => {
            return Err(error.message());
        },
    };
    let max_length: usize = max_side(shape);
    assert(max_length == longer_side(text));
    let word_list: WordList = match build_word_list(
        word_list_content,
        Some(max_length),
        max_shared_substring,
    ) {
        Ok(word_list) => word_list,
        Err(message) => {
            return Err(message);
        },
    };
    let ghost list = word_list;
    assert(is_list_of(list, word_list_content@, Some(max_length), max_shared_substring));
    let result: Result<String, FillError> = if word_list.is_empty() {
        Err(FillError::NoWords)
    } else {
        match solve_grid(word_list, template.as_str(), min_score, scorer, driver) {
            Ok(text) => Ok(text),
            Err(error) => Err(FillError::Solve(error)),
        }
    };
    let ghost answer = text_result(result);
    assert(is_answer::<S, D>(
        list,
        text,
        min_score,
        max_shared_substring,
        scorer,
        false,
        answer,
    ));
    match result {
        Ok(text) => Ok(text),
        Err(error) => Err(error.message()),
    }
}

} // verus!
