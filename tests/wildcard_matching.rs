use string_io_and_mock::wildcard::{contains_wildcard, wildcard_matches};

#[test]
fn star_is_anchored_at_both_ends() {
    assert!(wildcard_matches("a*", "a"));
    assert!(wildcard_matches("a*", "ab"));
    assert!(wildcard_matches("a*", "abc"));
    assert!(!wildcard_matches("a*", "ba"));
    assert!(!wildcard_matches("a*", ""));
}

#[test]
fn star_matches_any_run() {
    assert!(wildcard_matches("*", ""));
    assert!(wildcard_matches("*", "anything at all"));
    assert!(wildcard_matches("dum*.fil", "dum.fil"));
    assert!(wildcard_matches("dum*.fil", "dummy1.fil"));
    assert!(!wildcard_matches("dum*.fil", "dummy1.fill"));
    assert!(wildcard_matches("*a*b*", "xxaxxbxx"));
    assert!(!wildcard_matches("*a*b*", "xxbxxaxx"));
    assert!(wildcard_matches("**", "ab"));
}

#[test]
fn question_matches_one_character() {
    assert!(wildcard_matches("?", "x"));
    assert!(!wildcard_matches("?", ""));
    assert!(!wildcard_matches("?", "xy"));
    assert!(wildcard_matches("dummy?.fil", "dummy1.fil"));
    assert!(!wildcard_matches("dummy?.fil", "dummy12.fil"));
    assert!(!wildcard_matches("dummy?.fil", "dummy.fil"));
    assert!(wildcard_matches("?", "é"));
}

#[test]
fn other_characters_are_literal() {
    assert!(wildcard_matches("a.txt", "a.txt"));
    assert!(!wildcard_matches("a.txt", "axtxt"));
    assert!(!wildcard_matches("a.*", "abc"));
    assert!(wildcard_matches("a+(b)[c]$^|{}", "a+(b)[c]$^|{}"));
    assert!(!wildcard_matches("File.txt", "file.txt"));
    assert!(wildcard_matches("", ""));
    assert!(!wildcard_matches("", "a"));
}

#[test]
fn detects_wildcards() {
    assert!(contains_wildcard("a*b"));
    assert!(contains_wildcard("dir/file?.txt"));
    assert!(!contains_wildcard("dir/file.txt"));
    assert!(!contains_wildcard(""));
}
