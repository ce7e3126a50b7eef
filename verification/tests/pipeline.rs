use ratchet::{
    scan_one, try_process_rules, RatchetConfig, RatchetError, RatchetFile, RatchetRule, RegexRule,
    TodoRule,
};

fn todo_config(name: &str) -> RatchetConfig {
    let mut config = RatchetConfig::new();
    config.rules.push((
        name.to_string(),
        RatchetRule::Todo(TodoRule { includes: None, exclude: None }),
    ));
    config
}

fn files(pairs: &[(&str, &str)]) -> Vec<(String, String)> {
    pairs.iter().map(|(p, c)| (p.to_string(), c.to_string())).collect()
}

#[test]
fn scan_one_skips_well_known_and_clean_files() {
    let rule = RatchetRule::Todo(TodoRule { includes: None, exclude: None });
    assert!(scan_one(&rule, "./target/gen.rs", "TODO").is_none());
    assert!(scan_one(&rule, "./src/ok.rs", "all done").is_none());

    let found = scan_one(&rule, ".\\src\\main.rs", "a TODO").unwrap();
    assert_eq!(found.0.path, "./src/main.rs");
    assert_eq!(found.1.len(), 1);
    assert_eq!((found.1[0].start, found.1[0].end), (2, 6));
}

#[test]
fn scan_normalizes_line_endings_before_fingerprinting() {
    let rule = RatchetRule::Todo(TodoRule { includes: None, exclude: None });
    let unix = scan_one(&rule, "./a.rs", "a TODO\nrest\n").unwrap();
    let windows = scan_one(&rule, "./a.rs", "a TODO\r\nrest\r").unwrap();
    // CRLF and lone CR normalize to LF, so the fingerprint and the
    // match spans agree between operating systems.
    assert_eq!(unix.0.path, windows.0.path);
    assert_eq!(unix.0.hash, windows.0.hash);
    assert_eq!(unix.1.len(), windows.1.len());
    assert_eq!((unix.1[0].start, unix.1[0].end), (windows.1[0].start, windows.1[0].end));

    let edited = scan_one(&rule, "./a.rs", "a TODO\nrest!\n").unwrap();
    assert_ne!(unix.0.hash, edited.0.hash);
}

#[test]
fn first_run_against_empty_baseline_never_regresses() {
    let config = todo_config("todo");
    let previous = RatchetFile::new();
    let candidates = files(&[
        ("./src/a.rs", "TODO one\nTODO two\n"),
        ("./target/skip.rs", "TODO"),
        ("./src/clean.rs", "nothing here"),
    ]);

    let (got_worse, snapshot) = try_process_rules(&config, &previous, &candidates).unwrap();
    assert!(!got_worse);
    assert_eq!(snapshot.version, config.version);
    assert_eq!(snapshot.rules.len(), 1);
    let entry = snapshot.rules.entry_at(0);
    assert_eq!(entry.0, "todo");
    assert_eq!(entry.1.len(), 1);
    let file_entry = entry.1.entry_at(0);
    assert_eq!(file_entry.0.path, "./src/a.rs");
    assert_eq!(file_entry.1.len(), 2);
}

#[test]
fn new_problem_turns_the_verdict() {
    let config = todo_config("todo");
    let previous = RatchetFile::new();
    let before = files(&[("./src/a.rs", "TODO one\n")]);
    let (_, baseline) = try_process_rules(&config, &previous, &before).unwrap();

    let unchanged = try_process_rules(&config, &baseline, &before).unwrap();
    assert!(!unchanged.0);

    let after = files(&[("./src/a.rs", "TODO one\nTODO two\n")]);
    let (got_worse, _) = try_process_rules(&config, &baseline, &after).unwrap();
    assert!(got_worse);

    let fixed = files(&[("./src/a.rs", "all fixed\n")]);
    let (still_fine, snapshot) = try_process_rules(&config, &baseline, &fixed).unwrap();
    assert!(!still_fine);
    let entry = snapshot.rules.entry_at(0);
    assert_eq!(entry.1.len(), 0);
}

#[test]
fn unrelated_edit_with_same_count_does_not_regress() {
    let config = todo_config("todo");
    let previous = RatchetFile::new();
    let before = files(&[("./src/a.rs", "TODO one\nfn x() {}\n")]);
    let (_, baseline) = try_process_rules(&config, &previous, &before).unwrap();

    let after = files(&[("./src/a.rs", "TODO one\nfn x() { 1 }\n")]);
    let (got_worse, snapshot) = try_process_rules(&config, &baseline, &after).unwrap();
    assert!(!got_worse);

    let old_key = baseline.rules.entry_at(0).1.entry_at(0).0.hash;
    let new_key = snapshot.rules.entry_at(0).1.entry_at(0).0.hash;
    assert_ne!(old_key, new_key);
}

#[test]
fn invalid_pattern_is_a_configuration_error() {
    let mut config = RatchetConfig::new();
    config.rules.push((
        "broken".to_string(),
        RatchetRule::Regex(RegexRule {
            regex: "foo(bar".to_string(),
            includes: None,
            exclude: None,
        }),
    ));
    let previous = RatchetFile::new();
    let result = try_process_rules(&config, &previous, &files(&[("./a.rs", "foobar")]));
    match result {
        Err(e) => assert_eq!(e, RatchetError::InvalidPattern),
        Ok(_) => panic!("a broken pattern must be rejected"),
    }
}

#[test]
fn regex_rule_runs_through_the_pipeline() {
    let mut config = RatchetConfig::new();
    config.rules.push((
        "no_unwrap".to_string(),
        RatchetRule::Regex(RegexRule {
            regex: r"\.unwrap\(\)".to_string(),
            includes: Some(vec![r"\.rs$".to_string()]),
            exclude: None,
        }),
    ));
    let previous = RatchetFile::new();
    let candidates = files(&[
        ("./src/a.rs", "x.unwrap();\ny.unwrap();\n"),
        ("./notes.md", "please .unwrap() nothing"),
    ]);
    let (got_worse, snapshot) = try_process_rules(&config, &previous, &candidates).unwrap();
    assert!(!got_worse);
    let entry = snapshot.rules.entry_at(0);
    assert_eq!(entry.1.len(), 1);
    let file_entry = entry.1.entry_at(0);
    assert_eq!(file_entry.0.path, "./src/a.rs");
    assert_eq!(file_entry.1.len(), 2);
    assert_eq!(file_entry.1[0].message, r"\.unwrap\(\)");
}
