//! The live state of single slots.

use ingrid_core::arc_consistency::establish_arc_consistency;
use ingrid_core::backtracking_search::{start_slots, Slot};
use ingrid_core::grid_config::OwnedGridConfig;
use ingrid_core::grid_setup::generate_grid_config_from_template_string;
use ingrid_core::option_order::FillScorer;
use ingrid_core::util::{build_glyph_counts_by_cell, clone_counts};
use ingrid_core::word_list::WordList;

struct FlatScorer;

impl FillScorer for FlatScorer {
    fn fill_score(&self, _crossing_counts: &Vec<Option<u32>>) -> i64 {
        0
    }
}

fn grid_of(template: &str, words: &[&str]) -> OwnedGridConfig {
    let longest = words.iter().map(|word| word.chars().count()).max().unwrap();
    let mut word_list = WordList::new(longest.max(3), 0);
    for word in words {
        word_list.add_word(word, 50, 0);
    }
    generate_grid_config_from_template_string(word_list, template, 40, &FlatScorer)
}

fn eliminated(slot: &Slot) -> Vec<usize> {
    (0..slot.eliminations.len())
        .filter(|&word_id| slot.eliminations[word_id].is_some())
        .collect()
}

#[test]
fn eliminations_are_added_and_removed() {
    let grid = grid_of("..", &["ab", "cd", "ef"]);
    let config = grid.to_config_ref();
    let mut slot = start_slots(&config).remove(0);
    assert_eq!(slot.remaining_option_count, 3);
    slot.add_elimination(&config, 1, Some(7));
    slot.add_elimination(&config, 2, None);
    assert_eq!(slot.remaining_option_count, 1);
    assert_eq!(slot.elimination_count(), 2);
    assert_eq!(slot.eliminations[1], Some(Some(7)));
    assert_eq!(slot.eliminations[2], Some(None));
    let choice = slot.get_choice(&config).unwrap();
    assert_eq!((choice.slot_id, choice.word_id), (0, 0));
    slot.remove_elimination(&config, 2);
    assert_eq!(eliminated(&slot), vec![1]);
    assert!(slot.get_choice(&config).is_none());
    slot.clear_eliminations(&config, 6);
    assert_eq!(eliminated(&slot), vec![1]);
    slot.clear_eliminations(&config, 7);
    assert_eq!(slot.elimination_count(), 0);
    assert_eq!(slot.remaining_option_count, 3);
}

#[test]
fn choices_shadow_eliminations() {
    let grid = grid_of("..", &["ab", "cd", "ef"]);
    let config = grid.to_config_ref();
    let mut slot = start_slots(&config).remove(0);
    slot.add_elimination(&config, 0, None);
    slot.choose_word(&config, 2);
    let copy = slot.clone();
    assert_eq!(copy.fixed_word_id, Some(2));
    assert_eq!(copy.get_choice(&config).unwrap().word_id, 2);
    slot.clear_choice();
    assert_eq!(slot.fixed_word_id, None);
    assert_eq!(eliminated(&slot), vec![0]);
    assert_eq!(slot.remaining_option_count, 2);
    assert_eq!(copy.fixed_word_id, Some(2));
}

#[test]
fn glyph_counts_have_a_table_for_each_cell() {
    let mut word_list = WordList::new(3, 0);
    for word in ["aba", "aab", "bab"] {
        word_list.add_word(word, 50, 0);
    }
    let counts = build_glyph_counts_by_cell(&word_list, 3, &[0, 1, 2]);
    assert_eq!(counts.len(), 3);
    assert_eq!(clone_counts(&counts).len(), 3);
    assert_eq!(build_glyph_counts_by_cell(&word_list, 0, &[]).len(), 0);
}

#[test]
fn supported_options_stay() {
    // The slots share their first letter, and both a and b occur there in either slot.
    let grid = grid_of("..\n.#", &["ab", "ba", "ac"]);
    let config = grid.to_config_ref();
    let slots = start_slots(&config);
    let fixed = vec![false; slots.len()];
    let success = establish_arc_consistency(&config, &slots, &fixed, None)
        .ok()
        .unwrap();
    assert_eq!(success.eliminations, vec![Vec::<usize>::new(), Vec::new()]);

    // Once "ba" is ruled out for one of them, no word of the other can start with b.
    let mut slots = start_slots(&config);
    let ba = 1;
    slots[0].add_elimination(&config, ba, None);
    let success = establish_arc_consistency(&config, &slots, &fixed, Some(0))
        .ok()
        .unwrap();
    assert_eq!(success.eliminations, vec![vec![], vec![ba]]);
}

#[test]
fn unsupported_options_are_removed() {
    // Across words have to start with the letter that a down word starts with.
    let grid = grid_of("...\n.##\n.##", &["abc", "axy", "bcd"]);
    let config = grid.to_config_ref();
    let slots = start_slots(&config);
    let fixed = vec![false; slots.len()];
    let success = establish_arc_consistency(&config, &slots, &fixed, None)
        .ok()
        .unwrap();
    assert_eq!(success.eliminations, vec![Vec::<usize>::new(), Vec::new()]);

    let grid = grid_of("...\n.##\n.##", &["abc", "xyz"]);
    let config = grid.to_config_ref();
    let mut slots = start_slots(&config);
    slots[0].add_elimination(&config, 1, None);
    let failure = establish_arc_consistency(&config, &slots, &fixed, None)
        .err()
        .unwrap();
    // The other slot loses "xyz" to the crossing and "abc" as a dupe.
    assert_eq!(failure.slot_id, 1);
    assert_eq!(failure.eliminated_by_cell.iter().sum::<usize>(), 1);
    assert_eq!(failure.eliminated_as_dupes, 1);
}

#[test]
fn a_slot_without_options_fails_at_once() {
    let grid = grid_of("...\n.##\n.##", &["ab"]);
    let config = grid.to_config_ref();
    let slots = start_slots(&config);
    assert!(slots.iter().all(|slot| slot.remaining_option_count == 0));
    let fixed = vec![false; slots.len()];
    let failure = establish_arc_consistency(&config, &slots, &fixed, None)
        .err()
        .unwrap();
    assert_eq!(failure.slot_id, 0);
    assert_eq!(failure.eliminated_by_cell, vec![0, 0, 0]);
    assert_eq!(failure.eliminated_as_dupes, 0);
}
