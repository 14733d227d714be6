//! Which words duplicate each other.

use ingrid_core::dupe_index::{AnyDupeIndex, DupeIndex};
use ingrid_core::types::GlobalWordId;
use ingrid_core::word_list::WordList;

fn list_of(window: usize, words: &[&str]) -> WordList {
    let mut word_list = WordList::new(10, window);
    for word in words {
        word_list.add_word(word, 50, 0);
    }
    word_list
}

fn dupes_of(word_list: &WordList, id: GlobalWordId) -> Vec<GlobalWordId> {
    let mut dupes: Vec<GlobalWordId> = word_list
        .dupe_index
        .get_dupes_by_length(id)
        .into_iter()
        .flat_map(|(length, ids)| ids.into_iter().map(move |id| (length, id)))
        .collect();
    dupes.sort_unstable();
    dupes
}

#[test]
fn words_duplicate_themselves() {
    let word_list = list_of(0, &["golf", "golfer"]);
    assert_eq!(word_list.dupe_index.window_size(), 0);
    assert_eq!(dupes_of(&word_list, (4, 0)), vec![(4, 0)]);
}

#[test]
fn common_substrings_make_dupes() {
    let word_list = list_of(4, &["golf", "golfer", "gopher", "minigolf", "gold", "elf"]);
    assert_eq!(word_list.dupe_index.window_size(), 4);
    // "golf", "golfer" and "minigolf" have "golf" in common.
    assert_eq!(dupes_of(&word_list, (4, 0)), vec![(4, 0), (6, 0), (8, 0)]);
    assert_eq!(dupes_of(&word_list, (8, 0)), vec![(4, 0), (6, 0), (8, 0)]);
    // "gopher" and "golfer" only have two letters in common.
    assert_eq!(dupes_of(&word_list, (6, 1)), vec![(6, 1)]);
    // Words shorter than the window only duplicate themselves.
    assert_eq!(dupes_of(&word_list, (3, 0)), vec![(3, 0)]);
}

#[test]
fn being_a_dupe_goes_both_ways() {
    let mut word_list = list_of(3, &["abcde", "cdefg", "xyzab", "efghi", "defen"]);
    word_list.dupe_index.add_dupe_pair((5, 2), (5, 3));
    let ids: Vec<GlobalWordId> = (0..5).map(|id| (5, id)).collect();
    for &left in &ids {
        for &right in &ids {
            assert_eq!(
                dupes_of(&word_list, left).contains(&right),
                dupes_of(&word_list, right).contains(&left)
            );
        }
    }
    assert!(dupes_of(&word_list, (5, 2)).contains(&(5, 3)));
}

#[test]
fn pairs_can_be_added_and_removed() {
    let mut word_list = list_of(3, &["red", "blue", "reddest"]);
    word_list.dupe_index.add_dupe_pair((3, 0), (4, 0));
    word_list.dupe_index.add_dupe_pair((3, 0), (4, 0));
    assert_eq!(dupes_of(&word_list, (3, 0)), vec![(3, 0), (4, 0), (7, 0)]);
    assert_eq!(dupes_of(&word_list, (4, 0)), vec![(3, 0), (4, 0)]);
    // Removing a pair that have a substring in common leaves them dupes.
    word_list.dupe_index.add_dupe_pair((3, 0), (7, 0));
    word_list.dupe_index.remove_dupe_pair((7, 0), (3, 0));
    word_list.dupe_index.remove_dupe_pair((4, 0), (3, 0));
    assert_eq!(dupes_of(&word_list, (3, 0)), vec![(3, 0), (7, 0)]);
    assert_eq!(dupes_of(&word_list, (4, 0)), vec![(4, 0)]);
    word_list.dupe_index.remove_dupe_pair((4, 0), (3, 0));
    assert_eq!(dupes_of(&word_list, (4, 0)), vec![(4, 0)]);
}

#[test]
fn extra_pairs_can_be_moved() {
    let mut word_list = list_of(0, &["red", "blue"]);
    word_list.dupe_index.add_dupe_pair((3, 0), (4, 0));
    let extra = word_list.dupe_index.take_extra_dupes();
    assert_eq!(dupes_of(&word_list, (3, 0)), vec![(3, 0)]);
    word_list.dupe_index.put_extra_dupes(extra);
    assert_eq!(dupes_of(&word_list, (3, 0)), vec![(3, 0), (4, 0)]);
    assert_eq!(dupes_of(&word_list, (4, 0)), vec![(3, 0), (4, 0)]);
}

#[test]
fn an_index_can_be_used_by_itself() {
    let word_list = list_of(0, &["banana", "bandana", "ant"]);
    let mut index: DupeIndex<3> = DupeIndex::default();
    assert_eq!(index.window_size(), 3);
    index.add_word(0, &word_list.words[6][0]);
    index.add_word(0, &word_list.words[7][0]);
    index.add_word(0, &word_list.words[3][0]);
    // "ban", "ana", "nan", "and", "nda", "dan" and "ant".
    assert_eq!(index.groups.len(), 7);
    let dupes = index.get_dupes_by_length((6, 0));
    assert_eq!(dupes.len(), 2);
    assert!(dupes[&6].contains(&0));
    assert!(dupes[&7].contains(&0));
    assert_eq!(index.get_dupes_by_length((3, 0)).len(), 1);
}
