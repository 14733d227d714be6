//! Which words slots may be filled with, and in which order.

use fancy_regex::Regex;
use ingrid_core::grid_config::{
    generate_all_checked_slot_options, generate_all_slot_options, generate_checked_slot_options,
    generate_grid_config, generate_slot_configs, generate_slot_options,
    generate_slots_from_template_string, sort_slot_options, OwnedGridConfig,
};
use ingrid_core::option_order::{calculate_option_key, sort_options, FillScorer};
use ingrid_core::pattern::{check_pattern, check_references};
use ingrid_core::slot_options::accepts_word;
use ingrid_core::sorting::stable_order;
use ingrid_core::types::GlyphId;
use ingrid_core::word_list::WordList;
use std::cell::RefCell;
use std::collections::HashSet;

struct RecordingScorer {
    seen: RefCell<Vec<Vec<Option<u32>>>>,
}

impl RecordingScorer {
    fn new() -> Self {
        RecordingScorer {
            seen: RefCell::new(vec![]),
        }
    }
}

impl FillScorer for RecordingScorer {
    fn fill_score(&self, crossing_counts: &Vec<Option<u32>>) -> i64 {
        self.seen.borrow_mut().push(crossing_counts.clone());
        crossing_counts.iter().flatten().map(|&count| count as i64).sum::<i64>() * 10
    }
}

fn sample_list() -> WordList {
    let mut word_list = WordList::new(5, 0);
    for (word, score) in [("cat", 50), ("cot", 40), ("car", 60), ("dog", 50), ("cats", 50)] {
        word_list.add_word(word, score, 0);
    }
    word_list
}

fn pattern(word_list: &mut WordList, text: &str) -> Vec<Option<GlyphId>> {
    text.chars()
        .map(|ch| (ch != '.').then_some(ch))
        .map(|ch| ch.map(|ch| word_list.glyph_id_for_char(ch)))
        .collect()
}

fn texts(word_list: &WordList, length: usize, options: &[usize]) -> Vec<String> {
    options
        .iter()
        .map(|&id| word_list.words[length][id].normalized_string.clone())
        .collect()
}

#[test]
fn options_agree_with_the_fill_and_the_score() {
    let mut word_list = sample_list();
    let fill = pattern(&mut word_list, "c..");
    let options = generate_slot_options(&mut word_list, &fill, 50, None, None);
    assert_eq!(texts(&word_list, 3, &options), vec!["cat", "car"]);
    let options = generate_slot_options(&mut word_list, &fill, 0, None, None);
    assert_eq!(texts(&word_list, 3, &options), vec!["cat", "cot", "car"]);
    let fill = pattern(&mut word_list, "..t");
    let options = generate_slot_options(&mut word_list, &fill, 40, None, None);
    assert_eq!(texts(&word_list, 3, &options), vec!["cat", "cot"]);
    let fill = pattern(&mut word_list, "z..");
    let options = generate_slot_options(&mut word_list, &fill, 0, None, None);
    assert!(options.is_empty());
}

#[test]
fn options_match_the_filter_pattern() {
    let mut word_list = sample_list();
    let fill = pattern(&mut word_list, "...");
    let regex = Regex::new("^c.t$").unwrap();
    let options = generate_slot_options(&mut word_list, &fill, 0, Some(&regex), None);
    assert_eq!(texts(&word_list, 3, &options), vec!["cat", "cot"]);
    let regex = Regex::new("o(?=g)").unwrap();
    let options = generate_slot_options(&mut word_list, &fill, 0, Some(&regex), None);
    assert_eq!(texts(&word_list, 3, &options), vec!["dog"]);
}

#[test]
fn patterns_with_inner_references_are_turned_down() {
    let mut word_list = sample_list();
    let fill = pattern(&mut word_list, "...");
    let inner = Regex::new(r"(?:(a|\1b)c)*d").unwrap();
    assert!(!check_pattern(&inner));
    let options = generate_checked_slot_options(&mut word_list, &fill, 0, Some(&inner), None);
    assert_eq!(options, None);
    // A complete entry does not need its pattern.
    let cot = pattern(&mut word_list, "cot");
    let options = generate_checked_slot_options(&mut word_list, &cot, 0, Some(&inner), None);
    assert_eq!(options, Some(vec![1]));
    word_list.add_word("bob", 50, 0);
    let outer = Regex::new(r"(.).\1").unwrap();
    assert!(check_pattern(&outer));
    let options =
        generate_checked_slot_options(&mut word_list, &fill, 0, Some(&outer), None).unwrap();
    assert_eq!(texts(&word_list, 3, &options), vec!["bob"]);

    let slots = generate_slots_from_template_string("...\n#.#\n#.#");
    let (mut configs, _) = generate_slot_configs(&slots);
    let fill = vec![None; 9];
    configs[0].filter_pattern = Some(outer);
    let options = generate_all_checked_slot_options(&mut word_list, &fill, &configs, 3, 0).unwrap();
    assert_eq!(texts(&word_list, 3, &options[0]), vec!["bob"]);
    assert_eq!(options[1].len(), 5);
    configs[1].filter_pattern = Some(inner);
    let options = generate_all_checked_slot_options(&mut word_list, &fill, &configs, 3, 0);
    assert_eq!(options, None);
}

#[test]
fn references_are_found_where_they_stand() {
    for outward in [
        "",
        "abc",
        r"(a)\1",
        r"((a)\2)",
        r"(a)(b\1)",
        r"(a\(\)b)\1",
        r"([(]a)\1",
        r"([]\]([^]]a)\1",
        r"([a[(]])\1",
        r"(?:a\1)(b)",
        r"(?=(a))\1",
        r"(?<n>a)\k<n>",
        r"(?P<n>a)(?P=n)",
        r"(?<!a)(b)\1",
        r"(?>a)(b)\1",
        r"(a)?(?(1)b|c)",
        r"((a)?(?(2)b|c))",
        r"(?x) ( a # )\1
            ) \1",
        r"(a(?#)\))\1",
        r"(?i:(a))\1",
        r"(a\0)",
        r"(\x{41}\p{L}\d)\1",
    ] {
        assert!(check_references(outward), "{}", outward);
        if let Ok(regex) = Regex::new(outward) {
            assert!(check_pattern(&regex));
            assert!(regex.is_match("acbacb(a)]b").is_ok());
        }
    }
    for inward in [
        r"(a\1)",
        r"((a\1))",
        r"(a(b)\1)",
        r"(?:(a|\1b)c)*d",
        r"(?<n>a|\k<n>)",
        r"(?P<n>a|(?P=n))",
        r"(?<n>a|\k<1>)",
        r"(?<m>a)(?<m>b|\k<m>)",
        r"(?x)( ?: a)(b | # )
            \1)",
        r"(?x:(a # )
            \1))",
        r"(a(?#)\1))\1)",
        r"([)]\1)",
        r"((?(?=a)b|c\1))",
        r"(a(?i-x:b)\1)",
    ] {
        assert!(!check_references(inward), "{}", inward);
    }
}

#[test]
fn sorting_again_changes_nothing() {
    let mut word_list = sample_list();
    let slots = generate_slots_from_template_string("...\n#.#\n#.#");
    let (configs, _) = generate_slot_configs(&slots);
    let fill = vec![None; 9];
    let mut options = generate_all_slot_options(&mut word_list, &fill, &configs, 3, 0);
    sort_slot_options(&word_list, &configs, &mut options, &RecordingScorer::new());
    let sorted = options.clone();
    sort_slot_options(&word_list, &configs, &mut options, &RecordingScorer::new());
    assert_eq!(options, sorted);
}

#[test]
fn allowed_words_need_only_agree_with_the_fill() {
    let mut word_list = sample_list();
    let fill = pattern(&mut word_list, "c..");
    let regex = Regex::new("r$").unwrap();
    let cot = 1;
    let dog = 3;
    let allowed: HashSet<usize> = [cot, dog].into_iter().collect();
    let options =
        generate_slot_options(&mut word_list, &fill, 50, Some(&regex), Some(&allowed));
    assert_eq!(texts(&word_list, 3, &options), vec!["cot", "car"]);
}

#[test]
fn complete_entries_use_their_word() {
    let mut word_list = sample_list();
    let fill = pattern(&mut word_list, "cot");
    let options = generate_slot_options(&mut word_list, &fill, 100, None, None);
    assert_eq!(options, vec![1]);

    // An unknown word is added, but never offered elsewhere.
    let fill = pattern(&mut word_list, "zzz");
    let options = generate_slot_options(&mut word_list, &fill, 100, None, None);
    assert_eq!(options, vec![4]);
    assert!(word_list.words[3][4].hidden);
    assert_eq!(word_list.words[3][4].normalized_string, "zzz");
    let again = generate_slot_options(&mut word_list, &fill, 100, None, None);
    assert_eq!(again, vec![4]);
    let open = pattern(&mut word_list, "z..");
    assert!(generate_slot_options(&mut word_list, &open, 0, None, None).is_empty());
}

#[test]
fn words_are_judged_by_all_criteria() {
    let mut word_list = sample_list();
    let fill = pattern(&mut word_list, "c..");
    let cat = &word_list.words[3][0];
    assert!(accepts_word(cat, &fill, 50, None, false));
    assert!(accepts_word(cat, &fill, 50, Some(true), false));
    assert!(!accepts_word(cat, &fill, 50, Some(false), false));
    assert!(accepts_word(cat, &fill, 50, Some(false), true));
    assert!(!accepts_word(cat, &fill, 51, None, false));
    assert!(accepts_word(cat, &fill, 51, None, true));
    let dog = &word_list.words[3][3];
    assert!(!accepts_word(dog, &fill, 0, None, true));
}

#[test]
fn every_slot_gets_its_options() {
    let mut word_list = sample_list();
    let slots = generate_slots_from_template_string("...\n#.#\n#.#");
    let (mut configs, _) = generate_slot_configs(&slots);
    configs[1].min_score_override = Some(60);
    configs[0].filter_pattern = Some(Regex::new("a").unwrap());
    let fill = vec![None; 9];
    let options = generate_all_slot_options(&mut word_list, &fill, &configs, 3, 50);
    assert_eq!(texts(&word_list, 3, &options[0]), vec!["cat", "car"]);
    assert_eq!(texts(&word_list, 3, &options[1]), vec!["car"]);
}

#[test]
fn slot_configs_are_copied() {
    let mut word_list = sample_list();
    let slots = generate_slots_from_template_string("...\n#.#\n#.#");
    let (mut configs, _) = generate_slot_configs(&slots);
    configs[1].filter_pattern = Some(Regex::new("^d").unwrap());
    configs[1].min_score_override = Some(10);
    let copy = configs[1].clone();
    assert_eq!(copy.id, 1);
    assert_eq!(copy.slot_spec(), configs[1].slot_spec());
    assert_eq!(copy.crossings.len(), 3);
    assert_eq!(copy.crossings[0].as_ref().unwrap().other_slot_cell, 1);
    let fill = pattern(&mut word_list, "...");
    let options = generate_slot_options(
        &mut word_list,
        &fill,
        copy.min_score_override.unwrap(),
        copy.filter_pattern.as_ref(),
        None,
    );
    assert_eq!(texts(&word_list, 3, &options), vec!["dog"]);
}

#[test]
fn keys_weigh_fill_and_scores() {
    let word_list = sample_list();
    let cat = &word_list.words[3][0];
    assert_eq!(calculate_option_key(cat, 900), -(900 + 250));
    assert_eq!(calculate_option_key(cat, -1000), 750);
    assert_eq!(calculate_option_key(cat, i64::MIN), i64::MAX - 249);
    assert_eq!(calculate_option_key(cat, i64::MAX), i64::MIN);
    let mut unscored = WordList::new(3, 0);
    unscored.add_word("abc", 0, 0);
    assert_eq!(calculate_option_key(&unscored.words[3][0], i64::MIN), i64::MAX);
    let mut lettered = WordList::new(3, 0);
    lettered.add_word("abc", 3, 4);
    assert_eq!(calculate_option_key(&lettered.words[3][0], 1), -36);
}

#[test]
fn options_are_sorted_by_their_keys() {
    let word_list = sample_list();
    // cat 50, cot 40, car 60, dog 50
    let sorted = sort_options(&word_list, 3, &vec![0, 1, 2, 3], &vec![0, 0, 0, 0]);
    assert_eq!(texts(&word_list, 3, &sorted), vec!["car", "cat", "dog", "cot"]);
    let sorted = sort_options(&word_list, 3, &vec![0, 1, 2, 3], &vec![0, 1000, 0, 50]);
    assert_eq!(texts(&word_list, 3, &sorted), vec!["cot", "car", "dog", "cat"]);
    let sorted = sort_options(&word_list, 3, &vec![3, 0], &vec![7, 7]);
    assert_eq!(texts(&word_list, 3, &sorted), vec!["dog", "cat"]);
}

#[test]
fn equal_keys_keep_their_order() {
    assert_eq!(stable_order(&vec![3, 1, 3, 2, 1]), vec![1, 4, 3, 0, 2]);
    assert_eq!(stable_order(&vec![]), Vec::<usize>::new());
    assert_eq!(stable_order(&vec![i64::MAX, 0, i64::MIN]), vec![2, 1, 0]);
}

#[test]
fn scorers_are_given_the_crossing_counts() {
    let word_list = sample_list();
    let slots = generate_slots_from_template_string("...\n.##\n.##");
    let (configs, _) = generate_slot_configs(&slots);
    let mut options = vec![vec![0, 1, 2, 3], vec![0, 3]];
    let scorer = RecordingScorer::new();
    sort_slot_options(&word_list, &configs, &mut options, &scorer);
    let seen = scorer.seen.borrow();
    // One option of the down slot starts with c, one with d.
    assert_eq!(seen[0], vec![Some(1), None, None]);
    assert_eq!(seen[3], vec![Some(1), None, None]);
    // Three options of the across slot start with c, one with d.
    assert_eq!(seen[4], vec![Some(3), None, None]);
    assert_eq!(seen[5], vec![Some(1), None, None]);
    assert_eq!(seen.len(), 6);
    assert_eq!(texts(&word_list, 3, &options[0]), vec!["car", "cat", "dog", "cot"]);
    // "cat" scores 30 + 250, "dog" 10 + 250.
    assert_eq!(texts(&word_list, 3, &options[1]), vec!["cat", "dog"]);
}

fn grid(raw_fill: &[Option<String>], min_score: u16) -> OwnedGridConfig {
    let slots = generate_slots_from_template_string("...\n#.#\n#.#");
    generate_grid_config(
        sample_list(),
        &slots,
        raw_fill,
        3,
        3,
        min_score,
        &RecordingScorer::new(),
    )
}

#[test]
fn grids_are_generated_from_entries() {
    let mut raw_fill = vec![None; 9];
    let open = grid(&raw_fill, 40);
    assert_eq!((open.width, open.height, open.crossing_count), (3, 3, 1));
    assert!(!open.abort);
    assert_eq!(open.slot_options[0].len(), 4);

    // Only the first character of a cell counts.
    raw_fill[0] = Some(String::from("dx"));
    let filled = grid(&raw_fill, 40);
    assert_eq!(texts(&filled.word_list, 3, &filled.slot_options[0]), vec!["dog"]);
    assert_eq!(
        filled.fill[0].map(|glyph| filled.word_list.glyphs[glyph]),
        Some('d')
    );
    let config = filled.to_config_ref();
    assert_eq!(config.fill.len(), 9);
    assert_eq!(config.slot_configs.len(), 2);

    // A character that no word has becomes a glyph of its own.
    raw_fill[0] = Some(String::from("ß"));
    let strange = grid(&raw_fill, 40);
    assert!(strange.slot_options[0].is_empty());
    assert!(strange.word_list.glyphs.contains(&'ß'));
}
