//! Word lists.

use ingrid_core::word_list::{parse_entry, WordList};
use ingrid_core::word_source::load_words;

#[test]
fn words_are_added_once() {
    let mut word_list = WordList::new(4, 0);
    assert!(word_list.is_empty());
    assert_eq!(word_list.words.len(), 5);
    assert_eq!(word_list.add_word("abba", 50, 3), (4, 0));
    assert_eq!(word_list.add_word("baba", 20, 4), (4, 1));
    assert!(!word_list.is_empty());
    assert_eq!(word_list.glyphs, vec!['a', 'b']);
    assert_eq!(word_list.words[4][1].glyphs, vec![1, 0, 1, 0]);
    // Adding a word again changes its scores.
    assert_eq!(word_list.add_word("abba", 70, 5), (4, 0));
    assert_eq!(word_list.words[4].len(), 2);
    assert_eq!(word_list.words[4][0].score, 70);
    assert_eq!(word_list.words[4][0].letter_score, 5);
}

#[test]
fn hidden_words_are_found_again() {
    let mut word_list = WordList::new(3, 4);
    let id = word_list.get_word_id_or_add_hidden("straße");
    assert_eq!(id, (6, 0));
    assert_eq!(word_list.get_word_id_or_add_hidden("straße"), id);
    assert_eq!(word_list.words[6].len(), 1);
    assert!(word_list.words[6][0].hidden);
    assert_eq!(word_list.words[6][0].score, 0);
    assert_eq!(word_list.words[6][0].normalized_string, "straße");
    // Words that are added afterwards are no longer hidden.
    assert_eq!(word_list.add_word("straße", 40, 0), id);
    assert!(!word_list.words[6][0].hidden);
    assert_eq!(word_list.get_word_id_or_add_hidden(""), (0, 0));
}

#[test]
fn glyphs_are_numbered() {
    let mut word_list = WordList::new(3, 0);
    assert_eq!(word_list.glyph_id_for_char('x'), 0);
    assert_eq!(word_list.glyph_id_for_char('é'), 1);
    assert_eq!(word_list.glyph_id_for_char('x'), 0);
    assert_eq!(word_list.glyphs, vec!['x', 'é']);
}

#[test]
fn all_window_sizes_are_available() {
    for window in [0, 3, 4, 5, 6, 7, 8, 9, 10, 11] {
        assert_eq!(WordList::new(1, window).dupe_index.window_size(), window);
    }
}

#[test]
fn entries_are_parsed() {
    assert_eq!(parse_entry("word;50"), Some((String::from("word"), 50)));
    assert_eq!(parse_entry(" two words ; 7 "), Some((String::from("two words"), 7)));
    assert_eq!(parse_entry("word;65535"), Some((String::from("word"), 65535)));
    assert_eq!(parse_entry("word;65536"), None);
    assert_eq!(parse_entry("word"), None);
    assert_eq!(parse_entry(";50"), None);
    assert_eq!(parse_entry("word;fifty"), None);
    assert_eq!(parse_entry("word;50;60"), None);
}

#[test]
fn word_lists_are_loaded() {
    let mut word_list = WordList::new(4, 0);
    word_list.get_word_id_or_add_hidden("cat");
    let contents = "Cat;50\r\n\n  \nnonsense\nelephant;90\nDOG ; 20\ndog;30\nÉté;1\n;5";
    let errors = load_words(&mut word_list, contents, Some(4));
    assert_eq!(
        errors,
        vec![
            "invalid line in word list: nonsense",
            "invalid line in word list: ;5"
        ]
    );
    let texts: Vec<(&str, u16, bool)> = word_list.words[3]
        .iter()
        .map(|word| (word.normalized_string.as_str(), word.score, word.hidden))
        .collect();
    assert_eq!(
        texts,
        vec![("cat", 50, false), ("dog", 30, false), ("été", 1, false)]
    );
    assert!(word_list.words.get(8).is_none());
    assert!(load_words(&mut word_list, "elephant;90", None).is_empty());
    assert_eq!(word_list.words[8].len(), 1);
}
