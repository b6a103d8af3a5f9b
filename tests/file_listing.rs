use string_io_and_mock::error::PathError;
use string_io_and_mock::listing::{DirProbe, Entry, EntryKind, FileTextHandler, ListPlan};
use string_io_and_mock::path::{normalize_separators, split_last_component};

fn entry(name: &str, kind: EntryKind) -> Entry {
    Entry { name: Some(String::from(name)), kind }
}

fn scan_parts(plan: ListPlan) -> (String, String, String) {
    match plan {
        ListPlan::Scan { dir, prefix, pattern } => (dir, prefix, pattern),
        ListPlan::Exact { path } => panic!("expected a scan, got the exact path {}", path),
    }
}

fn playground() -> Vec<Entry> {
    vec![
        entry("dummy1.fil", EntryKind::File),
        entry("subdir", EntryKind::Directory),
        entry("dummy2.fil", EntryKind::File),
    ]
}

#[test]
fn plain_pattern_is_looked_up_as_is() {
    let fth = FileTextHandler::new();
    match fth.plan_listing("tests/playground/TheWell.txt").unwrap() {
        ListPlan::Exact { path } => {
            assert_eq!(path, "tests/playground/TheWell.txt");
            assert_eq!(fth.exact_listing(path.clone(), true), vec![path.clone()]);
            assert!(fth.exact_listing(path, false).is_empty());
        },
        ListPlan::Scan { .. } => panic!("a plain pattern needs no scan"),
    }
}

#[test]
fn question_mark_finds_both_dummies() {
    let fth = FileTextHandler::new();
    let (dir, prefix, pattern) = scan_parts(fth.plan_listing("playground/dummy?.fil").unwrap());
    assert_eq!(dir, "playground/");
    assert_eq!(prefix, "playground/");
    assert_eq!(pattern, "dummy?.fil");
    let found = fth.scan_listing(&prefix, &pattern, DirProbe::Listed(playground())).unwrap();
    assert_eq!(found, vec![String::from("playground/dummy1.fil"), String::from("playground/dummy2.fil")]);
}

#[test]
fn star_finds_both_dummies() {
    let fth = FileTextHandler::new();
    let (_, prefix, pattern) = scan_parts(fth.plan_listing("playground/dum*.fil").unwrap());
    let found = fth.scan_listing(&prefix, &pattern, DirProbe::Listed(playground())).unwrap();
    assert_eq!(found, vec![String::from("playground/dummy1.fil"), String::from("playground/dummy2.fil")]);
}

#[test]
fn star_skips_directories() {
    let fth = FileTextHandler::new();
    let (_, prefix, pattern) = scan_parts(fth.plan_listing("playground/*").unwrap());
    let entries = vec![entry("only.txt", EntryKind::File), entry("nested", EntryKind::Directory)];
    let found = fth.scan_listing(&prefix, &pattern, DirProbe::Listed(entries)).unwrap();
    assert_eq!(found, vec![String::from("playground/only.txt")]);
}

#[test]
fn links_to_files_count_and_others_do_not() {
    let fth = FileTextHandler::new();
    let entries = vec![
        entry("a_link", EntryKind::LinkToFile),
        entry("a_dirlink", EntryKind::LinkToDirectory),
        entry("a_broken", EntryKind::BrokenLink),
        entry("a_odd", EntryKind::Unknown),
        Entry { name: None, kind: EntryKind::File },
        entry("a_file", EntryKind::File),
    ];
    let found = fth.scan_listing("d/", "a_*", DirProbe::Listed(entries)).unwrap();
    assert_eq!(found, vec![String::from("d/a_link"), String::from("d/a_file")]);
}

#[test]
fn pattern_in_current_directory() {
    let fth = FileTextHandler::new();
    let (dir, prefix, pattern) = scan_parts(fth.plan_listing("*.txt").unwrap());
    assert_eq!(dir, ".");
    assert_eq!(prefix, "");
    assert_eq!(pattern, "*.txt");
    let found = fth.scan_listing(&prefix, &pattern, DirProbe::Listed(vec![entry("x.txt", EntryKind::File)])).unwrap();
    assert_eq!(found, vec![String::from("x.txt")]);
}

#[test]
fn wildcard_in_parent_is_refused() {
    let fth = FileTextHandler::new();
    assert_eq!(fth.plan_listing("play*/dummy1.fil").unwrap_err(), PathError::WildcardInParent);
    assert_eq!(fth.plan_listing("a/b?/c*").unwrap_err(), PathError::WildcardInParent);
    assert_eq!(fth.plan_listing("a*/..").unwrap_err(), PathError::WildcardInParent);
    assert_eq!(fth.plan_listing("a*\\b").unwrap_err(), PathError::WildcardInParent);
}

#[test]
fn missing_parent_is_reported() {
    let fth = FileTextHandler::new();
    let (_, prefix, pattern) = scan_parts(fth.plan_listing("nowhere/*.txt").unwrap());
    assert_eq!(fth.scan_listing(&prefix, &pattern, DirProbe::Missing), Err(PathError::NonexistentParent));
}

#[test]
fn failed_enumeration_keeps_its_kind() {
    let fth = FileTextHandler::new();
    let r = fth.scan_listing("d/", "*", DirProbe::Failed(std::io::ErrorKind::PermissionDenied));
    assert_eq!(r, Err(PathError::IoError(std::io::ErrorKind::PermissionDenied)));
}

#[test]
fn backslashes_separate_components() {
    let fth = FileTextHandler::new();
    let (dir, prefix, pattern) = scan_parts(fth.plan_listing("dir\\sub\\*.txt").unwrap());
    assert_eq!(dir, "dir/sub/");
    assert_eq!(prefix, "dir/sub/");
    assert_eq!(pattern, "*.txt");
    assert_eq!(normalize_separators("a\\b/c\\"), "a/b/c/");
}

#[test]
fn trailing_separators_and_dots_are_skipped() {
    assert_eq!(split_last_component("a/b*/").unwrap(), (String::from("a/"), String::from("b*")));
    assert_eq!(split_last_component("a/b*/./").unwrap(), (String::from("a/"), String::from("b*")));
    assert_eq!(split_last_component("/x?").unwrap(), (String::from("/"), String::from("x?")));
    assert_eq!(split_last_component("a//b*").unwrap(), (String::from("a//"), String::from("b*")));
    assert_eq!(split_last_component("./.*").unwrap(), (String::from("./"), String::from(".*")));
    assert_eq!(split_last_component("../*").unwrap(), (String::from("../"), String::from("*")));
}
