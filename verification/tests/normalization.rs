use ratchet::{is_well_known, to_normalized_file_contents, to_normalized_path, u64_to_decimal};

#[test]
fn test_to_normalized_path() {
    assert_eq!(to_normalized_path("foo\\bar"), "foo/bar");
}

#[test]
fn test_to_normalized_file_contents() {
    let contents = "foo\r\nbar\r";
    assert_eq!(to_normalized_file_contents(contents), "foo\nbar\n");
}

#[test]
fn normalized_path_keeps_forward_slashes() {
    assert_eq!(to_normalized_path("./src/main.rs"), "./src/main.rs");
    assert_eq!(to_normalized_path("a\\b\\c.rs"), "a/b/c.rs");
    assert_eq!(to_normalized_path(""), "");
}

#[test]
fn normalized_contents_keeps_lone_newlines() {
    assert_eq!(to_normalized_file_contents("a\nb\n"), "a\nb\n");
    assert_eq!(to_normalized_file_contents("\r\r\n"), "\n\n");
    assert_eq!(to_normalized_file_contents(""), "");
}

#[test]
fn decimal_rendering_matches_std() {
    assert_eq!(u64_to_decimal(0), "0");
    assert_eq!(u64_to_decimal(9), "9");
    assert_eq!(u64_to_decimal(10), "10");
    assert_eq!(u64_to_decimal(1234567890123456789), "1234567890123456789");
    assert_eq!(u64_to_decimal(u64::MAX), u64::MAX.to_string());
}

#[test]
fn well_known_paths_are_skipped() {
    assert!(is_well_known("./ratchet.toml"));
    assert!(is_well_known("./ratchet.ron"));
    assert!(is_well_known("./.git/objects/ab"));
    assert!(is_well_known("./target/debug/build.rs"));
    assert!(!is_well_known("./src/lib.rs"));
    assert!(!is_well_known("./gitlog.txt"));
}
