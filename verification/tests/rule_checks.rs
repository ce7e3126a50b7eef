use ratchet::{RatchetConfig, RatchetRule, RegexRule, Rule, TodoRule};

fn todo_rule() -> TodoRule {
    TodoRule { includes: None, exclude: None }
}

#[test]
fn todo_rule_finds_every_occurrence() {
    let rule = todo_rule();
    let problems = rule.check("a.rs", "x TODO y TODO");
    assert_eq!(problems.len(), 2);
    assert_eq!((problems[0].start, problems[0].end), (2, 6));
    assert_eq!((problems[1].start, problems[1].end), (9, 13));
    assert_eq!(problems[0].message, "TODO");
    assert_eq!(problems[1].message, "TODO");
    assert_eq!(problems[0].message_id, problems[1].message_id);
    assert!(problems[0].message_id.parse::<u64>().is_ok());
}

#[test]
fn todo_rule_occurrences_do_not_overlap() {
    let rule = todo_rule();
    let problems = rule.check("a.rs", "TODOTODOT");
    assert_eq!(problems.len(), 2);
    assert_eq!((problems[0].start, problems[0].end), (0, 4));
    assert_eq!((problems[1].start, problems[1].end), (4, 8));
    assert!(rule.check("a.rs", "TOD OD TO DO").is_empty());
}

#[test]
fn regex_rule_finds_non_overlapping_matches() {
    let rule = RegexRule { regex: "a+".to_string(), includes: None, exclude: None };
    let problems = rule.check("a.rs", "baaa ca");
    assert_eq!(problems.len(), 2);
    assert_eq!((problems[0].start, problems[0].end), (1, 4));
    assert_eq!((problems[1].start, problems[1].end), (6, 7));
    assert_eq!(problems[0].message, "a+");
    assert_eq!(problems[0].message_id, problems[1].message_id);
    assert!(problems[0].message_id.parse::<u64>().is_ok());
}

#[test]
fn regex_and_todo_agree_on_the_literal_pattern() {
    // A regex of the literal TODO must flag exactly what the TODO rule
    // flags, with the same message and the same pattern fingerprint.
    let regex_rule = RegexRule { regex: "TODO".to_string(), includes: None, exclude: None };
    let content = "TODO x TODO\nmore TODO";
    let from_regex = regex_rule.check("a.rs", content);
    let from_todo = todo_rule().check("a.rs", content);
    assert_eq!(from_regex.len(), from_todo.len());
    for (a, b) in from_regex.iter().zip(from_todo.iter()) {
        assert_eq!((a.start, a.end), (b.start, b.end));
        assert_eq!(a.message, b.message);
        assert_eq!(a.message_id, b.message_id);
    }
}

#[test]
fn analyze_file_honours_includes_and_excludes() {
    let rule = RatchetRule::Todo(TodoRule {
        includes: Some(vec![r"\.rs$".to_string()]),
        exclude: Some(vec!["test".to_string()]),
    });
    assert!(rule.analyze_file("./src/main.rs"));
    assert!(!rule.analyze_file("./notes.txt"));
    assert!(!rule.analyze_file("./src/test_helpers.rs"));

    let unrestricted = RatchetRule::Todo(todo_rule());
    assert!(unrestricted.analyze_file("./anything.at.all"));

    let exclude_only = RatchetRule::Todo(TodoRule {
        includes: None,
        exclude: Some(vec!["generated".to_string()]),
    });
    assert!(exclude_only.analyze_file("./src/lib.rs"));
    assert!(!exclude_only.analyze_file("./src/generated.rs"));
}

#[test]
fn invalid_patterns_fail_validation() {
    let bad = RatchetRule::Regex(RegexRule {
        regex: "foo(bar".to_string(),
        includes: None,
        exclude: None,
    });
    assert!(!bad.validate());

    let good = RatchetRule::Regex(RegexRule {
        regex: "foo".to_string(),
        includes: Some(vec![r"\.rs$".to_string()]),
        exclude: None,
    });
    assert!(good.validate());

    let bad_include = RatchetRule::Todo(TodoRule {
        includes: Some(vec!["[".to_string()]),
        exclude: None,
    });
    assert!(!bad_include.validate());

    let mut config = RatchetConfig::new();
    assert!(config.validate());
    config.rules.push(("broken".to_string(), bad));
    assert!(!config.validate());
}
