//! Tests of the engine's mutable state: the capture step, the
//! populated-column tracker and the in-progress record.

use unstruct::config::parse;
use unstruct::engine::record;
use unstruct::state::Match;
use unstruct::state::ParsedTracker;
use unstruct::state::ResultRow;
use unstruct::tables::GroupKey;

#[test]
fn record_captures_the_matched_column() {
    let cfg = parse("\"R\" { a = \"A\" }").unwrap();
    let key = GroupKey { name: "R".to_string(), depth: 1 };
    let mut parsed = ParsedTracker::new();
    let mut result = ResultRow::new();
    let found = record(
        &"A".to_string(),
        &"v".to_string(),
        &key,
        &cfg.matcher,
        &mut parsed,
        &mut result,
        2,
    );
    assert_eq!(found, 1);
    assert!(parsed.contains_key(&key));
    match result.get(&"a".to_string()) {
        Some(Match::Value(v)) => assert_eq!(v, "v"),
        _ => panic!("the matched column was not captured"),
    }
}

#[test]
fn record_ignores_unmapped_paths_and_wrong_depths() {
    let cfg = parse("\"R\" { a = \"A\" }").unwrap();
    let key = GroupKey { name: "R".to_string(), depth: 1 };
    let mut parsed = ParsedTracker::new();
    let mut result = ResultRow::new();
    let wrong_path = record(
        &"B".to_string(),
        &"v".to_string(),
        &key,
        &cfg.matcher,
        &mut parsed,
        &mut result,
        2,
    );
    let wrong_depth = record(
        &"A".to_string(),
        &"v".to_string(),
        &key,
        &cfg.matcher,
        &mut parsed,
        &mut result,
        1,
    );
    assert_eq!(wrong_path, 0);
    assert_eq!(wrong_depth, 0);
    assert!(!parsed.contains_key(&key));
    assert!(result.get(&"a".to_string()).is_none());
}

#[test]
fn tracker_clear_keeps_the_keys_and_empties_the_sets() {
    let key = GroupKey { name: "R".to_string(), depth: 1 };
    let mut tracker = ParsedTracker::new();
    assert!(!tracker.contains_key(&key));
    assert!(!tracker.any_marked());
    tracker.mark(&key, &"a".to_string());
    assert!(tracker.contains_key(&key));
    assert!(tracker.any_marked());
    tracker.clear();
    assert!(tracker.contains_key(&key));
    assert!(!tracker.any_marked());
}

#[test]
fn result_row_overwrites_and_reads_back_the_latest_value() {
    let mut row = ResultRow::new();
    row.insert("c".to_string(), Match::Value("one".to_string()));
    row.insert("c".to_string(), Match::Value("two".to_string()));
    match row.get(&"c".to_string()) {
        Some(Match::Value(v)) => assert_eq!(v, "two"),
        _ => panic!("the column was not captured"),
    }
    row.insert("c".to_string(), Match::Nothing);
    match row.get(&"c".to_string()) {
        Some(Match::Nothing) => {},
        _ => panic!("the column was not reset"),
    }
}
