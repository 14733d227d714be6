//! Where slots are and where they cross.

use ingrid_core::grid_config::{
    generate_slot_configs, generate_slots_from_template_string, Direction, SlotConfig, SlotSpec,
};
use ingrid_core::grid_template::{find_runs, read_template};
use ingrid_core::slot_layout::generate_slot_configs as layout;

fn keys(slots: &[SlotSpec]) -> Vec<String> {
    slots.iter().map(|slot| slot.to_key()).collect()
}

/// For each cell, the other slot, its cell there and the id of the crossing.
fn crossings(config: &SlotConfig) -> Vec<Option<(usize, usize, usize)>> {
    config
        .crossings
        .iter()
        .map(|crossing| {
            crossing
                .as_ref()
                .map(|c| (c.other_slot_id, c.other_slot_cell, c.crossing_id))
        })
        .collect()
}

#[test]
fn slots_are_read_from_a_template() {
    let slots = generate_slots_from_template_string(
        "
        #..a
        ....
        .#..
        ",
    );
    assert_eq!(
        keys(&slots),
        vec![
            "1,0,across,3",
            "0,1,across,4",
            "2,2,across,2",
            "0,1,down,2",
            "1,0,down,2",
            "2,0,down,3",
            "3,0,down,3",
        ]
    );
}

#[test]
fn single_cells_and_blocks_are_no_slots() {
    assert_eq!(keys(&generate_slots_from_template_string(".#.")), Vec::<String>::new());
    assert_eq!(keys(&generate_slots_from_template_string("###\r\n###")), Vec::<String>::new());
    assert_eq!(keys(&generate_slots_from_template_string(".\n.")), vec!["0,0,down,2"]);
    assert_eq!(
        keys(&generate_slots_from_template_string("..#...#..")),
        vec!["0,0,across,2", "3,0,across,3", "7,0,across,2"]
    );
}

#[test]
fn blank_lines_and_margins_are_ignored() {
    let rows = read_template("  ab \r\n\n \t\u{3000}\n\u{a0}c.\u{2003}\n");
    assert_eq!(rows, vec![vec!['a', 'b'], vec!['c', '.']]);
    assert_eq!(read_template("").len(), 0);
}

#[test]
fn rows_may_be_longer_than_the_first() {
    assert_eq!(
        keys(&generate_slots_from_template_string("..\n...\n..")),
        vec![
            "0,0,across,2",
            "0,1,across,3",
            "0,2,across,2",
            "0,0,down,3",
            "1,0,down,3",
        ]
    );
}

#[test]
fn runs_are_in_order() {
    let lines = vec![vec!['a', '.', '#'], vec!['#'], vec![], vec!['.', '.', '.']];
    let runs: Vec<(usize, usize, usize)> = find_runs(&lines)
        .iter()
        .map(|run| (run.line, run.start, run.length))
        .collect();
    assert_eq!(runs, vec![(0, 0, 2), (3, 0, 3)]);
}

#[test]
fn crossings_are_numbered_in_order() {
    let slots = generate_slots_from_template_string("..\n..");
    let (configs, count) = generate_slot_configs(&slots);
    assert_eq!(count, 4);
    assert_eq!(configs.len(), 4);
    assert_eq!(crossings(&configs[0]), vec![Some((2, 0, 0)), Some((3, 0, 1))]);
    assert_eq!(crossings(&configs[1]), vec![Some((2, 1, 2)), Some((3, 1, 3))]);
    assert_eq!(crossings(&configs[2]), vec![Some((0, 0, 0)), Some((1, 0, 2))]);
    assert_eq!(crossings(&configs[3]), vec![Some((0, 1, 1)), Some((1, 1, 3))]);
    for (id, config) in configs.iter().enumerate() {
        assert_eq!(config.id, id);
        assert_eq!(config.slot_spec(), slots[id]);
        assert!(config.min_score_override.is_none());
        assert!(config.filter_pattern.is_none());
    }
}

#[test]
fn unchecked_cells_have_no_crossing() {
    let slots = generate_slots_from_template_string("...\n.#.");
    let (configs, count) = layout(&slots);
    assert_eq!(count, 2);
    assert_eq!(
        crossings(&configs[0]),
        vec![Some((1, 0, 0)), None, Some((2, 0, 1))]
    );
    assert_eq!(crossings(&configs[1]), vec![Some((0, 0, 0)), None]);
}

#[test]
fn both_sides_of_a_crossing_agree() {
    let slots = generate_slots_from_template_string(
        "
        ....#.....
        ....#.....
        ..........
        #..###....
        ......####
        ",
    );
    let (configs, count) = generate_slot_configs(&slots);
    let mut seen = vec![0; count];
    for config in &configs {
        for (cell, crossing) in config.crossings.iter().enumerate() {
            if let Some(crossing) = crossing {
                let other = &configs[crossing.other_slot_id];
                let back = other.crossings[crossing.other_slot_cell].as_ref().unwrap();
                assert_eq!(back.other_slot_id, config.id);
                assert_eq!(back.other_slot_cell, cell);
                assert_eq!(back.crossing_id, crossing.crossing_id);
                assert_eq!(
                    config.cell_coords()[cell],
                    other.cell_coords()[crossing.other_slot_cell]
                );
                seen[crossing.crossing_id] += 1;
            }
        }
    }
    // Every id belongs to one square, which is seen from both sides.
    assert!(seen.iter().all(|&times| times == 2));
}

#[test]
fn entries_that_overlap_share_an_id() {
    // Two entries in the same row meet in two cells; the second entry uses the first id for both.
    let across = |x: usize| SlotSpec {
        start_cell: (x, 0),
        direction: Direction::Across,
        length: 3,
    };
    let (configs, count) = generate_slot_configs(&[across(0), across(1)]);
    assert_eq!(count, 2);
    assert_eq!(
        crossings(&configs[0]),
        vec![None, Some((1, 0, 0)), Some((1, 1, 1))]
    );
    assert_eq!(
        crossings(&configs[1]),
        vec![Some((0, 1, 0)), Some((0, 2, 0)), None]
    );
}

#[test]
fn no_entries_make_no_slots() {
    let (configs, count) = generate_slot_configs(&[]);
    assert!(configs.is_empty());
    assert_eq!(count, 0);
}
