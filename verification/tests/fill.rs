//! Filling whole grids.

use ingrid_core::arc_consistency::ArcConsistencyFailure;
use ingrid_core::backtracking_search::{
    choose_next_slot, deadline_after, find_fill, find_fill_for_seed, find_fill_wasm, interruption,
    maintain_arc_consistency, next_limit, next_slot, open_slots, pick_word, ranked_slot,
    start_slots, undo_choice, word_candidates, ArcConsistencyMode, FillFailure, FillSuccess, SearchDriver, Slot, Statistics,
};
use ingrid_core::grid_config::{Choice, GridConfig, OwnedGridConfig, SlotId};
use ingrid_core::grid_setup::generate_grid_config_from_template_string;
use ingrid_core::option_order::FillScorer;
use ingrid_core::render::render_grid;
use ingrid_core::word_list::WordList;
use rand::rngs::SmallRng;
use rand::SeedableRng;
use std::cell::Cell;
use std::collections::HashSet;

struct TestScorer;

impl FillScorer for TestScorer {
    fn fill_score(&self, crossing_counts: &Vec<Option<u32>>) -> i64 {
        let sum: f32 = crossing_counts
            .iter()
            .map(|count| count.map_or(0.0, |count| (count as f32).log10()))
            .sum();
        (sum / crossing_counts.len() as f32 * 900.0) as i64
    }
}

#[derive(Default)]
struct TestDriver {
    time: Cell<u64>,
    tick: u64,
    abort: bool,
    growth: usize,
    slot_weights: Vec<f32>,
    crossing_weights: Vec<f32>,
    failures: usize,
}

impl TestDriver {
    fn priority(&self, slots: &[Slot], slot_id: SlotId) -> f32 {
        slots[slot_id].remaining_option_count as f32 / self.slot_weights[slot_id]
    }
}

impl SearchDriver for TestDriver {
    fn now(&self) -> u64 {
        self.time.set(self.time.get() + self.tick);
        self.time.get()
    }

    fn abort_requested(&self) -> bool {
        self.abort
    }

    fn weigh_slots(&mut self, config: &GridConfig, slots: &Vec<Slot>) {
        self.crossing_weights.resize(config.crossing_count, 1.0);
        self.slot_weights = config
            .slot_configs
            .iter()
            .map(|slot_config| {
                slot_config
                    .crossings
                    .iter()
                    .flatten()
                    .filter(|crossing| {
                        let other = &slots[crossing.other_slot_id];
                        other.fixed_word_id.is_none() && other.remaining_option_count > 1
                    })
                    .map(|crossing| self.crossing_weights[crossing.crossing_id])
                    .sum()
            })
            .collect();
    }

    fn rank_slot(&self, slots: &Vec<Slot>, slot_id: SlotId) -> u32 {
        // For numbers that are not negative, the bits are in the order of the numbers.
        self.priority(slots, slot_id).to_bits()
    }

    fn stays_with(&self, slots: &Vec<Slot>, last: SlotId, best: SlotId) -> bool {
        self.priority(slots, last) - self.priority(slots, best) < 0.15
    }

    fn record_failure(&mut self, config: &GridConfig, failure: &ArcConsistencyFailure) {
        self.failures += 1;
        self.crossing_weights.resize(config.crossing_count, 1.0);
        for weight in &mut self.crossing_weights {
            *weight = 1.0 + (*weight - 1.0) * 0.99;
        }
        let crossings = &config.slot_configs[failure.slot_id].crossings;
        for (crossing, &count) in crossings.iter().zip(&failure.eliminated_by_cell) {
            if let Some(crossing) = crossing {
                self.crossing_weights[crossing.crossing_id] += count as f32;
            }
        }
    }

    fn grow_backtrack_limit(&self, max_backtracks: usize) -> usize {
        if self.growth > 0 {
            self.growth
        } else {
            (max_backtracks as f32 * 1.1) as usize
        }
    }
}

struct Lcg(u64);

impl Lcg {
    fn next(&mut self, bound: usize) -> usize {
        self.0 = self
            .0
            .wrapping_mul(6364136223846793005)
            .wrapping_add(1442695040888963407);
        ((self.0 >> 33) as usize) % bound
    }

    fn letter(&mut self) -> char {
        (b'a' + self.next(26) as u8) as char
    }
}

fn rows_of(template: &str) -> Vec<Vec<char>> {
    template
        .lines()
        .map(|line| line.trim().chars().collect::<Vec<char>>())
        .filter(|row| !row.is_empty())
        .collect()
}

/// The entries of a grid, in either direction.
fn entries_of(rows: &[Vec<char>]) -> Vec<String> {
    let columns: Vec<Vec<char>> = (0..rows[0].len())
        .map(|x| rows.iter().map(|row| row[x]).collect())
        .collect();
    rows.iter()
        .chain(&columns)
        .flat_map(|line| {
            line.iter()
                .collect::<String>()
                .split('#')
                .filter(|entry| entry.chars().count() > 1)
                .map(String::from)
                .collect::<Vec<_>>()
        })
        .collect()
}

/// A word list from which the template can be filled, among words that don't fit.
fn word_list_for(template: &str, seed: u64) -> WordList {
    let mut random = Lcg(seed);
    let mut rows = rows_of(template);
    let side = rows.len().max(rows[0].len());
    for row in &mut rows {
        for cell in row {
            if *cell == '.' {
                *cell = random.letter();
            }
        }
    }
    let mut word_list = WordList::new(side, 5);
    for entry in entries_of(&rows) {
        word_list.add_word(&entry, 50, 1);
    }
    for length in 2..=side {
        for _ in 0..40 {
            let decoy: String = (0..length).map(|_| random.letter()).collect();
            word_list.add_word(&decoy, 60, 2);
        }
    }
    word_list
}

fn generate_config(template: &str) -> OwnedGridConfig {
    generate_config_with(template, word_list_for(template, 7))
}

fn generate_config_with(template: &str, word_list: WordList) -> OwnedGridConfig {
    generate_grid_config_from_template_string(word_list, template.trim(), 40, &TestScorer)
}

fn text_of(config: &GridConfig, choice: &Choice) -> String {
    let length = config.slot_configs[choice.slot_id].length;
    config.word_list.words[length][choice.word_id]
        .normalized_string
        .clone()
}

/// Check from scratch that the choices fill the grid.
fn assert_is_fill(config: &GridConfig, choices: &[Choice]) {
    assert_eq!(choices.len(), config.slot_configs.len());
    let mut grid: Vec<Option<char>> = config
        .fill
        .iter()
        .map(|cell| cell.map(|glyph| config.word_list.glyphs[glyph]))
        .collect();
    let mut seen: HashSet<String> = HashSet::new();
    for (slot_id, choice) in choices.iter().enumerate() {
        assert_eq!(choice.slot_id, slot_id);
        let text = text_of(config, choice);
        let slot_config = &config.slot_configs[slot_id];
        assert!(config.slot_options[slot_id].contains(&choice.word_id));
        for (index, letter) in slot_config
            .cell_fill_indices(config.width)
            .into_iter()
            .zip(text.chars())
        {
            assert!(grid[index].map_or(true, |other| other == letter));
            grid[index] = Some(letter);
        }
        assert!(seen.insert(text));
    }
}

fn fill(config: &GridConfig) -> FillSuccess {
    let result =
        find_fill(config, None, &mut TestDriver::default()).expect("Failed to find a fill");
    assert_is_fill(config, &result.choices);
    println!("{:?}", result.statistics);
    println!("{}", render_grid(config, &result.choices));
    result
}

#[test]
fn test_find_fill_for_3x3_square() {
    let grid_config = generate_config(
        "
            ...
            ...
            ...
            ",
    );

    fill(&grid_config.to_config_ref());
}

#[test]
fn test_find_fill_for_5x5_square() {
    let grid_config = generate_config(
        "
            .....
            .....
            .....
            .....
            .....
            ",
    );

    fill(&grid_config.to_config_ref());
}

#[test]
fn test_find_fill_for_6x6_square() {
    let grid_config = generate_config(
        "
            ......
            ......
            ......
            ......
            ......
            ......
            ",
    );

    fill(&grid_config.to_config_ref());
}

#[test]
fn test_find_fill_for_empty_7x7_template() {
    let grid_config = generate_config(
        "
            #...###
            #....##
            .......
            .......
            .......
            ##....#
            ###...#
            ",
    );

    fill(&grid_config.to_config_ref());
}

#[test]
fn test_find_fill_for_partially_populated_7x7_template() {
    let grid_config = generate_config(
        "
            #..s###
            #..i.##
            ...m...
            .......
            .......
            ##....#
            ###...#
            ",
    );

    fill(&grid_config.to_config_ref());
}

#[test]
fn test_dupe_prevention_doesnt_affect_prefilled_entries() {
    let grid_config = generate_config(
        "
            #..p###
            #..a.##
            ...r...
            partiii
            ...i...
            ##.e..#
            ###s..#
            ",
    );

    let result = fill(&grid_config.to_config_ref());
    let config = grid_config.to_config_ref();
    let texts: Vec<String> = result
        .choices
        .iter()
        .map(|choice| text_of(&config, choice))
        .collect();
    assert!(texts.contains(&String::from("partiii")));
    assert!(texts.contains(&String::from("parties")));
}

#[test]
fn test_fill_fails_gracefully() {
    let template = "
            #..x###
            #....##
            ......x
            ......x
            ......x
            ##....#
            ###..x#
            ";
    let word_list = word_list_for(&template.replace('x', "."), 7);
    let grid_config = generate_config_with(template, word_list);

    let error = find_fill(
        &grid_config.to_config_ref(),
        None,
        &mut TestDriver::default(),
    )
    .expect_err("Found an impossible fill??");
    assert!(matches!(error, FillFailure::HardFailure));
}

#[test]
fn test_find_fill_for_empty_15x15_themed_template() {
    let grid_config = generate_config(
        "
            ....#.....#....
            ....#.....#....
            ...............
            ......##.......
            ###.....#......
            ............###
            .....#.....#...
            ....#.....#....
            ...#.....#.....
            ###............
            ......#.....###
            .......##......
            ...............
            ....#.....#....
            ....#.....#....
            ",
    );

    fill(&grid_config.to_config_ref());
}

#[test]
fn test_find_fill_for_empty_15x15_cryptic_template() {
    let grid_config = generate_config(
        "
            ....#....#....#
            .#.#.#.#.#.#.#.
            ...............
            .#.#.#.#.#.#.#.
            ...............
            ##.#.#.#.###.#.
            ...............
            .###.#####.###.
            ...............
            .#.###.#.#.#.##
            ...............
            .#.#.#.#.#.#.#.
            ...............
            .#.#.#.#.#.#.#.
            #....#....#....
            ",
    );

    fill(&grid_config.to_config_ref());
}

#[test]
fn test_find_fill_for_empty_15x15_themeless_template() {
    let grid_config = generate_config(
        "
            ..........#....
            ..........#....
            ..........#....
            ...#...#.......
            ....###........
            .........#.....
            ###.......#....
            ...#.......#...
            ....#.......###
            .....#.........
            ........###....
            .......#...#...
            ....#..........
            ....#..........
            ....#..........
            ",
    );

    fill(&grid_config.to_config_ref());
}

#[test]
fn test_find_fill_for_partially_populated_15x15_themeless_template() {
    let grid_config = generate_config(
        "
            .......##......
            admirers#......
            .......t.......
            .....#.i...#...
            ....#..c..#....
            ...#...k.#.....
            ###....y......#
            ##.....f.....##
            #......i....###
            .....#.n...#...
            ....#..g..#....
            ...#...e.#.....
            .......r.......
            ......#s.......
            ......##.......
            ",
    );

    fill(&grid_config.to_config_ref());
}

#[test]
fn test_6x6_fill_performance() {
    let template = "......\n......\n......\n......\n......\n......";
    let grid_config = generate_grid_config_from_template_string(
        word_list_for(template, 7),
        template,
        50,
        &TestScorer,
    );

    let result = fill(&grid_config.to_config_ref());
    println!("Statistics: {:?}", result.statistics);
}

fn list_of(words: &[&str], window: usize) -> WordList {
    let longest = words.iter().map(|word| word.chars().count()).max().unwrap();
    let mut word_list = WordList::new(longest, window);
    for word in words {
        word_list.add_word(word, 50, 0);
    }
    word_list
}

#[test]
fn the_only_fill_is_found() {
    let words = ["abc", "def", "ghi", "adg", "beh", "cfi", "abx", "dex", "xyz"];
    let grid_config = generate_config_with("...\n...\n...", list_of(&words, 0));
    let config = grid_config.to_config_ref();
    let result = fill(&config);
    let rendered = render_grid(&config, &result.choices);
    assert!(rendered == "abc\ndef\nghi" || rendered == "adg\nbeh\ncfi");
    assert_eq!(result.statistics.retries, 0);
    assert!(result.statistics.states >= 1);
}

#[test]
fn a_word_is_not_used_twice() {
    // Filling both rows and both columns takes four different words.
    let symmetric = generate_config_with("..\n..", list_of(&["ab", "ba", "aa", "bb"], 0));
    let error = find_fill(&symmetric.to_config_ref(), None, &mut TestDriver::default());
    assert!(matches!(error, Err(FillFailure::HardFailure)));

    let fillable = generate_config_with("..\n..", list_of(&["ab", "cd", "ac", "bd"], 0));
    fill(&fillable.to_config_ref());
}

#[test]
fn words_that_overlap_are_kept_apart() {
    // The slots don't cross, so only the dupe rule connects them.
    let words = ["shout", "about", "outer"];
    let free = generate_config_with(".....\n#####\n.....", list_of(&words, 0));
    fill(&free.to_config_ref());

    // All three words have "out" in common.
    let kept_apart = generate_config_with(".....\n#####\n.....", list_of(&words, 3));
    let error = find_fill(&kept_apart.to_config_ref(), None, &mut TestDriver::default());
    assert!(matches!(error, Err(FillFailure::HardFailure)));

    // No two of them have four letters in a row in common.
    let wider = generate_config_with(".....\n#####\n.....", list_of(&words, 4));
    fill(&wider.to_config_ref());
}

#[test]
fn pairs_are_kept_apart_until_they_are_removed() {
    let mut word_list = list_of(&["first", "other"], 0);
    word_list.dupe_index.add_dupe_pair((5, 0), (5, 1));
    let mut grid_config = generate_config_with(".....\n#####\n.....", word_list);
    let error = find_fill(
        &grid_config.to_config_ref(),
        None,
        &mut TestDriver::default(),
    );
    assert!(matches!(error, Err(FillFailure::HardFailure)));

    grid_config
        .word_list
        .dupe_index
        .remove_dupe_pair((5, 1), (5, 0));
    fill(&grid_config.to_config_ref());
}

/// A grid with many options whose search may take a while.
fn hard_config(abort: bool) -> OwnedGridConfig {
    let mut word_list = WordList::new(4, 0);
    let mut random = Lcg(99);
    for _ in 0..400 {
        let word: String = (0..4).map(|_| (b'a' + random.next(4) as u8) as char).collect();
        word_list.add_word(&word, 50, 0);
    }
    let mut grid_config =
        generate_config_with("....\n....\n....\n....", word_list);
    grid_config.abort = abort;
    grid_config
}

#[test]
fn a_deadline_stops_the_search() {
    let grid_config = hard_config(false);
    let mut driver = TestDriver {
        tick: 1,
        ..TestDriver::default()
    };
    match find_fill(&grid_config.to_config_ref(), Some(0), &mut driver) {
        Err(FillFailure::Timeout) => {}
        Ok(success) => assert!(success.statistics.states < 10),
        other => panic!("unexpected result: {:?}", other),
    }
}

#[test]
fn an_abort_signal_stops_the_search() {
    let grid_config = hard_config(true);
    let mut driver = TestDriver {
        abort: true,
        ..TestDriver::default()
    };
    match find_fill(&grid_config.to_config_ref(), None, &mut driver) {
        Err(FillFailure::Abort) => {}
        Ok(success) => assert!(success.statistics.states < 10),
        other => panic!("unexpected result: {:?}", other),
    }

    // Without a way to signal, the request is ignored.
    let unaware = hard_config(false);
    let result = find_fill(&unaware.to_config_ref(), None, &mut driver);
    assert!(!matches!(result, Err(FillFailure::Abort)));
}

#[test]
fn the_backtrack_limit_stops_an_attempt() {
    // No fill exists, but every slot has options that agree pairwise with those of its crossings.
    let words = ["ab", "ba", "aa", "bb"];
    let grid_config = generate_config_with("..\n..", list_of(&words, 0));
    let config = grid_config.to_config_ref();
    let mut slots = start_slots(&config);
    let mut driver = TestDriver::default();
    driver.weigh_slots(&config, &slots);
    assert!(maintain_arc_consistency(&config, &mut slots, &ArcConsistencyMode::Initial).is_ok());
    match find_fill_for_seed(&config, &slots, None, 0, 1, &mut driver) {
        Err(FillFailure::ExceededBacktrackLimit(backtracks)) => assert_eq!(backtracks, 1),
        other => panic!("unexpected result: {:?}", other),
    }
    assert!(matches!(
        find_fill_for_seed(&config, &slots, None, 1000, 1, &mut driver),
        Err(FillFailure::HardFailure)
    ));
    assert!(driver.failures > 0);
}

#[test]
fn the_search_without_a_clock_agrees() {
    let words = ["abc", "def", "ghi", "adg", "beh", "cfi"];
    let fillable = generate_config_with("...\n...\n...", list_of(&words, 0));
    let config = fillable.to_config_ref();
    let result = find_fill_wasm(&config, &mut TestDriver::default()).expect("no fill");
    assert_is_fill(&config, &result.choices);
    assert_eq!(result.statistics.total_time, 0);

    let unfillable = generate_config_with("...\n...\n...", list_of(&words[..5], 0));
    let result = find_fill_wasm(&unfillable.to_config_ref(), &mut TestDriver::default());
    assert!(matches!(result, Err(FillFailure::HardFailure)));
}

#[test]
fn an_empty_grid_is_filled() {
    let grid_config = generate_config_with("##\n##", list_of(&["ab"], 0));
    let result = find_fill(
        &grid_config.to_config_ref(),
        None,
        &mut TestDriver::default(),
    );
    assert_eq!(result.unwrap().choices.len(), 0);
}

#[test]
fn a_choice_is_propagated_and_undone() {
    let words = ["ab", "cd", "ac", "bd", "ax"];
    let grid_config = generate_config_with("..\n..", list_of(&words, 0));
    let config = grid_config.to_config_ref();
    let mut slots = start_slots(&config);
    assert_eq!(slots.len(), 4);
    assert!(slots.iter().all(|slot| slot.remaining_option_count == 5));
    assert!(maintain_arc_consistency(&config, &mut slots, &ArcConsistencyMode::Initial).is_ok());
    let before: Vec<_> = slots.iter().map(|slot| slot.eliminations.clone()).collect();
    let open = open_slots(&slots);
    if let Some(&slot_id) = open.first() {
        let word_id = *config.slot_options[slot_id]
            .iter()
            .find(|&&word_id| slots[slot_id].eliminations[word_id].is_none())
            .unwrap();
        let choice = Choice { slot_id, word_id };
        let mode = ArcConsistencyMode::Choice(choice);
        if maintain_arc_consistency(&config, &mut slots, &mode).is_ok() {
            assert_eq!(slots[slot_id].fixed_word_id, Some(word_id));
            undo_choice(&config, &mut slots, slot_id);
        }
        assert_eq!(slots[slot_id].fixed_word_id, None);
    }
    let after: Vec<_> = slots.iter().map(|slot| slot.eliminations.clone()).collect();
    assert_eq!(before, after);
}

#[test]
fn a_failed_change_leaves_no_trace() {
    let words = ["ab", "cd", "ac", "bd"];
    let grid_config = generate_config_with("..\n..", list_of(&words, 0));
    let config = grid_config.to_config_ref();
    let mut slots = start_slots(&config);
    assert!(maintain_arc_consistency(&config, &mut slots, &ArcConsistencyMode::Initial).is_ok());
    let slot_id = 0;
    // Rule out the options of a slot one after the other; that fails in the end.
    let mut failed = false;
    for word_id in config.slot_options[slot_id].clone() {
        if slots[slot_id].eliminations[word_id].is_some() {
            continue;
        }
        let choice = Choice { slot_id, word_id };
        let mode = ArcConsistencyMode::Elimination(choice, None);
        let before: Vec<_> = slots.iter().map(|slot| slot.eliminations.clone()).collect();
        if let Err(failure) = maintain_arc_consistency(&config, &mut slots, &mode) {
            failed = true;
            assert!(failure.slot_id < slots.len());
            // Every option that was left is accounted for.
            let mut left = before[failure.slot_id].iter().filter(|e| e.is_none()).count();
            if failure.slot_id == slot_id {
                left -= 1;
            }
            let by_cell: usize = failure.eliminated_by_cell.iter().sum();
            assert_eq!(by_cell + failure.eliminated_as_dupes, left);
            let after: Vec<_> = slots.iter().map(|slot| slot.eliminations.clone()).collect();
            assert_eq!(before, after);
        }
    }
    assert!(failed);
}

#[test]
fn ranked_slots_are_taken_in_order() {
    let slot_ids = vec![4, 7, 9, 12];
    let ranks = vec![30, 10, 30, 20];
    assert_eq!(ranked_slot(&slot_ids, &ranks, 0), 7);
    assert_eq!(ranked_slot(&slot_ids, &ranks, 1), 12);
    assert_eq!(ranked_slot(&slot_ids, &ranks, 2), 4);
    assert_eq!(ranked_slot(&slot_ids, &ranks, 3), 9);
    assert_eq!(ranked_slot(&slot_ids, &ranks, 8), 9);
}

#[test]
fn the_last_slot_is_kept_or_another_one_taken() {
    let slot_ids = vec![4, 7, 9, 12];
    let ranks = vec![30, 10, 30, 20];
    assert_eq!(next_slot(&slot_ids, &ranks, Some(9), 0), (9, true));
    assert_eq!(next_slot(&slot_ids, &ranks, None, 0), (7, false));
    assert_eq!(next_slot(&slot_ids, &ranks, None, 1), (12, false));
    assert_eq!(next_slot(&slot_ids, &ranks, None, 9), (9, false));
}

#[test]
fn searches_are_interrupted_now_and_then() {
    let deadline = Some(100);
    assert!(interruption(9, deadline, 101, true, true).is_none());
    assert!(interruption(10, deadline, 100, false, true).is_none());
    assert!(interruption(10, None, 101, true, false).is_none());
    assert!(matches!(
        interruption(10, deadline, 101, true, true),
        Some(FillFailure::Timeout)
    ));
    assert!(matches!(
        interruption(20, deadline, 100, true, true),
        Some(FillFailure::Abort)
    ));
    assert_eq!(deadline_after(30, None), None);
    assert_eq!(deadline_after(30, Some(12)), Some(42));
    assert_eq!(deadline_after(30, Some(u64::MAX)), Some(u64::MAX));
}

#[test]
fn a_success_stays_within_the_backtrack_limit() {
    let grid_config = generate_config("....\n....\n....\n....");
    let config = grid_config.to_config_ref();
    let mut driver = TestDriver::default();
    let mut slots = start_slots(&config);
    assert!(maintain_arc_consistency(&config, &mut slots, &ArcConsistencyMode::Initial).is_ok());
    for limit in 0..5 {
        for seed in 0..10 {
            match find_fill_for_seed(&config, &slots, None, limit, seed, &mut driver) {
                Ok(success) => assert!(success.statistics.backtracks <= limit),
                Err(FillFailure::ExceededBacktrackLimit(backtracks)) => {
                    assert!(backtracks > limit)
                }
                other => panic!("unexpected result: {:?}", other),
            }
        }
    }
}

#[test]
fn the_next_slot_is_an_open_one() {
    let words = ["abc", "def", "ghi", "adg", "beh", "cfi", "aei", "xyz", "abz"];
    let grid_config = generate_config_with("...\n...\n...", list_of(&words, 0));
    let config = grid_config.to_config_ref();
    let slots = start_slots(&config);
    assert_eq!(open_slots(&slots), vec![0, 1, 2, 3, 4, 5]);
    let mut rng = SmallRng::seed_from_u64(3);
    let mut driver = TestDriver::default();
    driver.weigh_slots(&config, &slots);
    let mut statistics = Statistics::default();
    // All priorities are the same, so we stay with the last slot.
    let next = choose_next_slot(&slots, Some(4), &mut rng, &driver, &mut statistics);
    assert_eq!(next, Some(4));
    assert_eq!(statistics.restricted_branchings, 1);
    // Otherwise one of the three best is taken.
    for _ in 0..20 {
        let next = choose_next_slot(&slots, None, &mut rng, &driver, &mut statistics);
        assert!(next.unwrap() < 3);
    }
    assert_eq!(statistics.restricted_branchings, 1);
    let none: Vec<Slot> = vec![];
    let next = choose_next_slot(&none, None, &mut rng, &driver, &mut statistics);
    assert_eq!(next, None);
}

#[test]
fn candidates_are_the_first_available_options() {
    let words = ["ab", "cd", "ef", "gh", "ij", "kl"];
    let grid_config = generate_config_with("..", list_of(&words, 0));
    let config = grid_config.to_config_ref();
    let mut slots = start_slots(&config);
    let options = config.slot_options[0].clone();
    assert_eq!(options.len(), 6);
    slots[0].add_elimination(&config, options[1], None);
    let candidates = word_candidates(&config, &slots[0], 0);
    assert_eq!(candidates, vec![(0, options[0]), (2, options[2]), (3, options[3])]);
    let candidates = word_candidates(&config, &slots[0], 4);
    assert_eq!(candidates, vec![(4, options[4]), (5, options[5])]);
}

#[test]
fn words_are_picked_by_position() {
    let candidates = vec![(0, 7), (2, 4), (3, 9)];
    assert_eq!(pick_word(&candidates, 0), 7);
    assert_eq!(pick_word(&candidates, 2), 9);
    assert_eq!(pick_word(&candidates, 3), 9);
    assert_eq!(pick_word(&candidates[..1].to_vec(), 2), 7);
}

#[test]
fn limits_grow() {
    assert_eq!(next_limit(500, 550), 550);
    assert_eq!(next_limit(500, 500), 501);
    assert_eq!(next_limit(500, 3), 501);
    assert_eq!(next_limit(0, 0), 1);
}

#[test]
fn cells_without_a_crossing_are_not_to_blame() {
    // The second word ends beyond the only crossing.
    let grid_config = generate_config_with("..\n.#", list_of(&["ab", "cd"], 0));
    let config = grid_config.to_config_ref();
    let mut slots = start_slots(&config);
    let failure = maintain_arc_consistency(&config, &mut slots, &ArcConsistencyMode::Initial);
    // Each word only agrees with itself, and it must not be used twice.
    assert!(failure.is_ok());
    let choice = Choice { slot_id: 0, word_id: 0 };
    let mode = ArcConsistencyMode::Choice(choice);
    let failure = maintain_arc_consistency(&config, &mut slots, &mode).unwrap_err();
    assert_eq!(failure.slot_id, 1);
    let crossings = &config.slot_configs[failure.slot_id].crossings;
    assert!(crossings[0].is_some() && crossings[1].is_none());
    assert_eq!(failure.eliminated_by_cell, vec![1, 0]);
    assert_eq!(failure.eliminated_as_dupes, 1);
}

#[test]
fn equal_seeds_give_equal_attempts() {
    let grid_config = hard_config(false);
    let config = grid_config.to_config_ref();
    let mut first = start_slots(&config);
    let mut second = start_slots(&config);
    for slots in [&mut first, &mut second] {
        assert!(maintain_arc_consistency(&config, slots, &ArcConsistencyMode::Initial).is_ok());
    }
    let eliminations = |slots: &Vec<Slot>| -> Vec<_> {
        slots.iter().map(|slot| slot.eliminations.clone()).collect()
    };
    assert_eq!(eliminations(&first), eliminations(&second));

    for seed in 0..5 {
        let attempt = |slots: &Vec<Slot>| {
            let mut driver = TestDriver::default();
            driver.weigh_slots(&config, slots);
            match find_fill_for_seed(&config, slots, None, 50, seed, &mut driver) {
                Ok(success) => (
                    success.statistics.backtracks,
                    Some(render_grid(&config, &success.choices)),
                ),
                Err(FillFailure::ExceededBacktrackLimit(backtracks)) => (backtracks, None),
                Err(_) => (0, None),
            }
        };
        assert_eq!(attempt(&first), attempt(&second));
    }
}
