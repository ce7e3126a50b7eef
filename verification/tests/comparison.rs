use ratchet::{compare_rule_maps, FileKey, Problem, RatchetFile, RuleMap};

fn problem(start: usize, end: usize, message: &str, message_id: &str) -> Problem {
    Problem {
        start,
        end,
        message: message.to_string(),
        message_id: message_id.to_string(),
    }
}

fn key(path: &str, hash: u64) -> FileKey {
    FileKey { path: path.to_string(), hash }
}

#[test]
fn new_violation_returns_worse() {
    let mut previous_rule_issues = RuleMap::new();
    previous_rule_issues.insert(key("file1", 1234), vec![problem(1, 2, "message", "hash")]);

    let mut previous_file = RatchetFile::new();
    previous_file.rules.insert("test_rule".to_string(), previous_rule_issues);

    let mut new_rule_issues = RuleMap::new();
    new_rule_issues.insert(
        key("file1", 1234),
        vec![problem(1, 2, "message1", "hash"), problem(3, 4, "message2", "hash")],
    );
    let mut new_file = RatchetFile::new();
    new_file.rules.insert("test_rule1".to_string(), new_rule_issues);

    assert!(previous_file.compare_new(&new_file));
}

#[test]
fn new_improvement_returns_better() {
    let mut previous_rule_issues = RuleMap::new();
    previous_rule_issues.insert(
        key("file1", 1234),
        vec![problem(1, 2, "message", "hash"), problem(3, 4, "message2", "hash")],
    );

    let mut previous_file = RatchetFile::new();
    previous_file.rules.insert("test_rule1".to_string(), previous_rule_issues);

    let mut new_rule_issues = RuleMap::new();
    new_rule_issues.insert(key("file1", 1234), vec![problem(1, 2, "message1", "hash")]);
    let mut new_file = RatchetFile::new();
    new_file.rules.insert("test_rule1".to_string(), new_rule_issues);

    assert!(!previous_file.compare_new(&new_file));
}

#[test]
fn file_rename_no_changes_returns_same() {
    let mut previous_rule_issues = RuleMap::new();
    previous_rule_issues.insert(key("file1", 1234), vec![problem(1, 2, "message", "hash")]);

    let mut previous_file = RatchetFile::new();
    previous_file.rules.insert("test_rule1".to_string(), previous_rule_issues);

    let mut new_rule_issues = RuleMap::new();
    new_rule_issues.insert(key("file1_renamed", 1234), vec![problem(1, 2, "message", "hash")]);
    let mut new_file = RatchetFile::new();
    new_file.rules.insert("test_rule1".to_string(), new_rule_issues);

    assert!(!previous_file.compare(&new_file));
}

#[test]
fn ratchet_file_new_violation_returns_worse() {
    let mut previous_rule_issues = RuleMap::new();
    previous_rule_issues.insert(key("file1", 1234), vec![problem(1, 2, "message1", "hash1")]);

    let mut previous_file = RatchetFile::new();
    previous_file.rules.insert("test_rule1".to_string(), previous_rule_issues);

    let mut new_rule_issues = RuleMap::new();
    // Note the fake hash, it's different because the file "changed"
    new_rule_issues.insert(
        key("file1", 4321),
        vec![problem(1, 2, "message1", "hash1"), problem(3, 4, "message2", "hash2")],
    );
    let mut new_file = RatchetFile::new();
    new_file.rules.insert("test_rule1".to_string(), new_rule_issues);

    assert!(previous_file.compare(&new_file));
}

#[test]
fn ratchet_file_new_improvement_returns_better() {
    let mut previous_rule_issues = RuleMap::new();
    previous_rule_issues.insert(
        key("file1", 1234),
        vec![problem(1, 2, "message", "hash"), problem(3, 4, "message2", "hash")],
    );

    let mut previous_file = RatchetFile::new();
    previous_file.rules.insert("test_rule1".to_string(), previous_rule_issues);

    let mut new_rule_issues = RuleMap::new();
    new_rule_issues.insert(key("file1", 4321), vec![problem(1, 2, "message1", "hash")]);
    let mut new_file = RatchetFile::new();
    new_file.rules.insert("test_rule1".to_string(), new_rule_issues);

    assert!(!previous_file.compare(&new_file));
}

#[test]
fn ratchet_file_file_rename_no_changes_returns_same() {
    let mut previous_rule_issues = RuleMap::new();
    previous_rule_issues.insert(key("file1", 1234), vec![problem(1, 2, "message", "hash")]);

    let mut previous_file = RatchetFile::new();
    previous_file.rules.insert("test_rule1".to_string(), previous_rule_issues);

    let mut new_rule_issues = RuleMap::new();
    new_rule_issues.insert(key("file1_renamed", 1234), vec![problem(1, 2, "message", "hash")]);
    let mut new_file = RatchetFile::new();
    new_file.rules.insert("test_rule1".to_string(), new_rule_issues);

    assert!(!previous_file.compare(&new_file));
}

#[test]
fn equal_maps_compare_equal() {
    let mut a = RuleMap::new();
    a.insert(key("a.rs", 7), vec![problem(0, 4, "m", "id")]);
    a.insert(key("b.rs", 8), vec![problem(2, 3, "m", "id"), problem(5, 6, "m", "id")]);
    let mut b = RuleMap::new();
    b.insert(key("a.rs", 7), vec![problem(0, 4, "m", "id")]);
    b.insert(key("b.rs", 8), vec![problem(2, 3, "m", "id"), problem(5, 6, "m", "id")]);

    let (new_total, old_total) = compare_rule_maps(&a, &b);
    assert_eq!(new_total, 3);
    assert_eq!(old_total, 3);
    assert!(new_total <= old_total);
}

#[test]
fn added_problem_regresses_rule() {
    let mut old_map = RuleMap::new();
    old_map.insert(key("a.rs", 7), vec![problem(0, 4, "m", "id")]);
    let mut new_map = RuleMap::new();
    new_map.insert(key("a.rs", 7), vec![problem(0, 4, "m", "id"), problem(9, 12, "m", "id")]);

    let (new_total, old_total) = compare_rule_maps(&old_map, &new_map);
    assert_eq!((new_total, old_total), (2, 1));
    assert!(new_total > old_total);
}

#[test]
fn removed_file_improves_rule() {
    let mut old_map = RuleMap::new();
    old_map.insert(key("a.rs", 7), vec![problem(0, 4, "m", "id")]);
    old_map.insert(key("b.rs", 8), vec![problem(1, 2, "m", "id")]);
    let mut new_map = RuleMap::new();
    new_map.insert(key("b.rs", 8), vec![problem(1, 2, "m", "id")]);

    let (new_total, old_total) = compare_rule_maps(&old_map, &new_map);
    assert_eq!((new_total, old_total), (1, 2));
    assert!(new_total <= old_total);
}

#[test]
fn rule_only_in_current_never_regresses() {
    let previous_file = RatchetFile::new();

    let mut new_rule_issues = RuleMap::new();
    new_rule_issues.insert(key("a.rs", 1), vec![problem(0, 4, "m", "id")]);
    let mut new_file = RatchetFile::new();
    new_file.rules.insert("fresh_rule".to_string(), new_rule_issues);

    assert!(!previous_file.compare(&new_file));
    let report = previous_file.compare_report(&new_file);
    assert_eq!(report.len(), 0);
}

#[test]
fn fingerprint_change_with_same_count_is_not_worse() {
    let mut old_map = RuleMap::new();
    old_map.insert(key("a.rs", 111), vec![problem(0, 4, "m", "id")]);
    let mut previous_file = RatchetFile::new();
    previous_file.rules.insert("rule".to_string(), old_map);

    let mut new_map = RuleMap::new();
    new_map.insert(key("a.rs", 222), vec![problem(7, 11, "m", "id")]);
    let mut new_file = RatchetFile::new();
    new_file.rules.insert("rule".to_string(), new_map);

    assert!(!previous_file.compare(&new_file));
}

#[test]
fn example_one_new_problem_in_unchanged_file() {
    let mut old_map = RuleMap::new();
    old_map.insert(key("a.rs", 1), vec![problem(0, 1, "p1", "h")]);
    let mut new_map = RuleMap::new();
    new_map.insert(key("a.rs", 1), vec![problem(0, 1, "p1", "h"), problem(2, 3, "p2", "h")]);

    let (new_total, old_total) = compare_rule_maps(&old_map, &new_map);
    assert_eq!((new_total, old_total), (2, 1));
}

#[test]
fn example_two_content_edited_fewer_matches() {
    let mut old_map = RuleMap::new();
    old_map.insert(key("a.rs", 1), vec![problem(0, 1, "p1", "h"), problem(2, 3, "p2", "h")]);
    let mut new_map = RuleMap::new();
    new_map.insert(key("a.rs", 2), vec![problem(0, 1, "p1", "h")]);

    let (new_total, old_total) = compare_rule_maps(&old_map, &new_map);
    assert_eq!((new_total, old_total), (1, 2));
}

#[test]
fn example_three_pure_rename() {
    let mut old_map = RuleMap::new();
    old_map.insert(key("a.rs", 1), vec![problem(0, 1, "p1", "h")]);
    let mut new_map = RuleMap::new();
    new_map.insert(key("b.rs", 1), vec![problem(0, 1, "p1", "h")]);

    let (new_total, old_total) = compare_rule_maps(&old_map, &new_map);
    assert_eq!((new_total, old_total), (1, 1));
}

#[test]
fn report_classifies_each_rule() {
    let mut worse = RuleMap::new();
    worse.insert(key("a.rs", 1), vec![problem(0, 1, "m", "h")]);
    let mut same = RuleMap::new();
    same.insert(key("b.rs", 2), vec![problem(0, 1, "m", "h")]);
    let mut gone = RuleMap::new();
    gone.insert(key("c.rs", 3), vec![problem(0, 1, "m", "h")]);
    let mut previous_file = RatchetFile::new();
    previous_file.rules.insert("gets_worse".to_string(), worse);
    previous_file.rules.insert("stays_same".to_string(), same);
    previous_file.rules.insert("vanishes".to_string(), gone);

    let mut worse_now = RuleMap::new();
    worse_now.insert(
        key("a.rs", 1),
        vec![problem(0, 1, "m", "h"), problem(4, 5, "m", "h")],
    );
    let mut same_now = RuleMap::new();
    same_now.insert(key("b.rs", 2), vec![problem(0, 1, "m", "h")]);
    let mut new_file = RatchetFile::new();
    new_file.rules.insert("gets_worse".to_string(), worse_now);
    new_file.rules.insert("stays_same".to_string(), same_now);

    let report = previous_file.compare_report(&new_file);
    assert_eq!(report.len(), 3);
    assert_eq!(report[0], ("gets_worse".to_string(), 2, 1));
    assert_eq!(report[1], ("stays_same".to_string(), 1, 1));
    assert_eq!(report[2], ("vanishes".to_string(), 0, 0));
    assert!(previous_file.compare(&new_file));
}

#[test]
fn compare_new_counts_missing_rule_on_old_side() {
    let mut old_map = RuleMap::new();
    old_map.insert(key("a.rs", 1), vec![problem(0, 1, "m", "h")]);
    let mut previous_file = RatchetFile::new();
    previous_file.rules.insert("dropped".to_string(), old_map);

    let new_file = RatchetFile::new();
    assert!(!previous_file.compare_new(&new_file));
}

#[test]
fn totals_fit_on_small_snapshots() {
    let mut m = RuleMap::new();
    m.insert(key("a.rs", 1), vec![problem(0, 1, "m", "h")]);
    let mut file = RatchetFile::new();
    file.rules.insert("r".to_string(), m);
    assert!(file.totals_fit());
    assert!(file.snapshot_total_fits());
}

#[test]
fn compare_new_skips_new_keys_of_known_rules() {
    // The aggregate comparison counts, for a rule both snapshots name,
    // only the new problems under file keys the baseline also carries;
    // the per-rule comparison counts the whole new map.
    let mut old_map = RuleMap::new();
    old_map.insert(key("a.rs", 1), vec![problem(0, 1, "m", "h")]);
    let mut previous_file = RatchetFile::new();
    previous_file.rules.insert("rule".to_string(), old_map);

    let mut new_map = RuleMap::new();
    new_map.insert(
        key("a.rs", 2),
        vec![
            problem(0, 1, "m", "h"),
            problem(2, 3, "m", "h"),
            problem(4, 5, "m", "h"),
        ],
    );
    let mut new_file = RatchetFile::new();
    new_file.rules.insert("rule".to_string(), new_map);

    assert!(previous_file.compare(&new_file));
    assert!(!previous_file.compare_new(&new_file));
}
