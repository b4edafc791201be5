use resonant_search::files::{is_skipped_dir, is_supported_file, same_text, usable_file_text};

#[test]
fn supported_extensions_ignore_case() {
    assert!(is_supported_file("notes.TXT", Some("TXT")));
    assert!(is_supported_file("main.rs", Some("rs")));
    assert!(!is_supported_file("photo.png", Some("png")));
}

#[test]
fn files_without_extension_need_a_known_name() {
    assert!(is_supported_file("README", None));
    assert!(is_supported_file("My-Makefile", None));
    assert!(!is_supported_file("notes", None));
}

#[test]
fn hidden_and_build_directories_are_skipped() {
    assert!(is_skipped_dir(".cache"));
    assert!(is_skipped_dir("node_modules"));
    assert!(is_skipped_dir("$RECYCLE.BIN"));
    assert!(!is_skipped_dir("src"));
    assert!(!is_skipped_dir("targets"));
}

#[test]
fn file_text_is_trimmed_and_bounded() {
    assert_eq!(usable_file_text("  hello world  \n"), Some("hello world".to_string()));
    assert_eq!(usable_file_text("short"), None);
    assert_eq!(usable_file_text("            \n\t"), None);
    let big = "a".repeat(1_000_001);
    assert_eq!(usable_file_text(&big), None);
    let edge = "b".repeat(1_000_000);
    assert_eq!(usable_file_text(&edge).map(|t| t.len()), Some(1_000_000));
}

#[test]
fn text_equality() {
    assert!(same_text("abc", "abc"));
    assert!(!same_text("abc", "abd"));
    assert!(!same_text("ab", "abc"));
}
