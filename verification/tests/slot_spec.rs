//! Identifying slots by keys.

use ingrid_core::grid_config::{Direction, SlotConfig, SlotSpec};

fn spec(x: usize, y: usize, direction: Direction, length: usize) -> SlotSpec {
    SlotSpec {
        start_cell: (x, y),
        direction,
        length,
    }
}

#[test]
fn test_slot_spec_serialization() {
    let slot_spec = SlotSpec {
        start_cell: (1, 2),
        direction: Direction::Across,
        length: 5,
    };

    let slot_key = serde_json::to_string(&slot_spec.to_key()).unwrap();

    assert_eq!(slot_key, "\"1,2,across,5\"");
}

#[test]
fn test_slot_spec_deserialization() {
    let key: String = serde_json::from_str("\"3,4,down,12\"").unwrap();
    let slot_spec: SlotSpec = SlotSpec::from_key(&key).unwrap();

    assert_eq!(
        slot_spec,
        SlotSpec {
            start_cell: (3, 4),
            direction: Direction::Down,
            length: 12,
        }
    );
}

#[test]
fn keys_go_both_ways() {
    for spec in [
        spec(0, 0, Direction::Across, 0),
        spec(10, 205, Direction::Down, 99),
        spec(usize::MAX, usize::MAX, Direction::Across, usize::MAX),
    ] {
        assert_eq!(SlotSpec::from_key(&spec.to_key()), Ok(spec));
    }
    assert_eq!(spec(10, 205, Direction::Down, 99).to_key(), "10,205,down,99");
}

#[test]
fn numbers_are_parsed_like_std_does() {
    let key = |number: &str| format!("{number},2,down,3");
    for number in [
        "0",
        "007",
        "+5",
        "+",
        "",
        "-1",
        "-0",
        "1 ",
        " 1",
        "1_000",
        "٣",
        "18446744073709551615",
        "18446744073709551616",
        "99999999999999999999999999",
        "++1",
        "0x10",
    ] {
        let parsed: Result<usize, _> = number.parse();
        match SlotSpec::from_key(&key(number)) {
            Ok(spec) => assert_eq!(Ok(spec.start_cell.0), parsed),
            Err(_) => assert!(parsed.is_err(), "{number}"),
        }
    }
}

#[test]
fn bad_keys_are_turned_down() {
    assert_eq!(
        SlotSpec::from_key("1,2,down"),
        Err(String::from("invalid slot key: 1,2,down"))
    );
    assert_eq!(
        SlotSpec::from_key(""),
        Err(String::from("invalid slot key: "))
    );
    assert_eq!(
        SlotSpec::from_key("1,2,sideways,5"),
        Err(String::from("invalid slot key: \"1,2,sideways,5\""))
    );
    assert_eq!(
        SlotSpec::from_key("1,2,Down,5"),
        Err(String::from("invalid slot key: \"1,2,Down,5\""))
    );
    assert_eq!(
        SlotSpec::from_key("1,\t,down,5"),
        Err(String::from("invalid slot key: \"1,\\t,down,5\""))
    );
    assert_eq!(
        SlotSpec::from_key("1,2,down,5,"),
        Err(String::from("invalid slot key: 1,2,down,5,"))
    );
}

fn config_of(spec: &SlotSpec) -> SlotConfig {
    SlotConfig {
        id: 0,
        start_cell: spec.start_cell,
        direction: spec.direction,
        length: spec.length,
        crossings: vec![None; spec.length],
        min_score_override: None,
        filter_pattern: None,
    }
}

#[test]
fn cells_are_located() {
    let across = spec(2, 1, Direction::Across, 3);
    let down = spec(2, 1, Direction::Down, 3);
    assert_eq!(across.cell_coords(), vec![(2, 1), (3, 1), (4, 1)]);
    assert_eq!(down.cell_coords(), vec![(2, 1), (2, 2), (2, 3)]);
    let across = config_of(&across);
    let down = config_of(&down);
    assert_eq!(across.cell_coords(), vec![(2, 1), (3, 1), (4, 1)]);
    assert_eq!(across.cell_fill_indices(5), vec![7, 8, 9]);
    assert_eq!(down.cell_fill_indices(5), vec![7, 12, 17]);

    let mut fill = vec![None; 20];
    fill[7] = Some(1);
    fill[8] = Some(2);
    assert_eq!(across.fill(&fill, 5), vec![Some(1), Some(2), None]);
    assert_eq!(across.complete_fill(&fill, 5), None);
    fill[9] = Some(3);
    assert_eq!(across.complete_fill(&fill, 5), Some(vec![1, 2, 3]));
    assert_eq!(config_of(&spec(0, 0, Direction::Down, 0)).complete_fill(&fill, 5), Some(vec![]));
}

#[test]
fn specs_match_their_slots() {
    let across = spec(2, 1, Direction::Across, 3);
    let config = config_of(&across);
    assert!(across.matches_slot(&config));
    assert_eq!(config.slot_spec(), across);
    assert_eq!(config.slot_key(), "2,1,across,3");
    assert!(!spec(2, 1, Direction::Down, 3).matches_slot(&config));
    assert!(!spec(2, 2, Direction::Across, 3).matches_slot(&config));
    assert!(!spec(3, 1, Direction::Across, 3).matches_slot(&config));
    assert!(!spec(2, 1, Direction::Across, 4).matches_slot(&config));
}
