use cargo_sweep::discover::{is_hidden, is_marker, is_under, is_under_any, same_text, visit, Visit};
use cargo_sweep::keep::KeepSet;
use cargo_sweep::policy::{duration_of_days, DAY};
use cargo_sweep::snapshot::{length_sum, listing_size, profiles_fit, Entry, EntryKind, Profile};

fn path(text: &str) -> Vec<String> {
    text.split('/').map(str::to_string).collect()
}

fn file(name: &str, len: u64) -> Entry {
    Entry {
        path: name.to_string(),
        name: name.to_string(),
        kind: EntryKind::File,
        len,
        files: vec![],
    }
}

fn dir(name: &str, files: &[u64]) -> Entry {
    Entry {
        path: name.to_string(),
        name: name.to_string(),
        kind: EntryKind::Dir,
        len: 0,
        files: files.to_vec(),
    }
}

fn profile(deps: Vec<Entry>) -> Profile {
    Profile {
        location: vec![],
        units: vec![],
        fingerprint: vec![],
        build: vec![],
        deps,
        native: None,
        root: vec![],
    }
}

#[test]
fn the_marker_is_the_fingerprint_directory() {
    assert!(is_marker(".fingerprint"));
    assert!(!is_marker("fingerprint"));
    assert!(!is_marker(".fingerprints"));
    assert!(!is_marker(".Fingerprint"));
    assert!(!is_marker(""));
}

#[test]
fn same_texts() {
    assert!(same_text("", ""));
    assert!(same_text("abc", "abc"));
    assert!(!same_text("abc", "abd"));
    assert!(!same_text("abc", "ab"));
    assert!(!same_text("ab", "abc"));
    assert!(same_text("h\u{e9}", "h\u{e9}"));
}

#[test]
fn hidden_names_begin_with_a_dot() {
    assert!(is_hidden(".git"));
    assert!(is_hidden("."));
    assert!(!is_hidden("git"));
    assert!(!is_hidden("a.b"));
    assert!(!is_hidden(""));
}

#[test]
fn paths_below_a_root() {
    assert!(is_under(&path("/t/a/target/debug"), &path("/t/a/target")));
    assert!(is_under(&path("/t/a/target"), &path("/t/a/target")));
    assert!(!is_under(&path("/t/a"), &path("/t/a/target")));
    assert!(!is_under(&path("/t/a/targets/debug"), &path("/t/a/target")));
    assert!(!is_under(&path("/t/b/target"), &path("/t/a/target")));
    assert!(is_under(&path("/t"), &vec![]));

    let roots = vec![path("/t/a/target"), path("/t/b/target")];
    assert!(is_under_any(&path("/t/b/target/release"), &roots));
    assert!(!is_under_any(&path("/t/c/target"), &roots));
    assert!(!is_under_any(&path("/t/c/target"), &vec![]));
}

#[test]
fn what_a_search_does() {
    // hidden directories are passed over unless asked for
    assert_eq!(visit(".git", true, false, false), Visit::Skip);
    assert_eq!(visit(".git", true, true, false), Visit::Pass);
    // a hidden file is not
    assert_eq!(visit(".gitignore", false, false, false), Visit::Pass);
    // what lies in a known target directory is passed over
    assert_eq!(visit("debug", true, true, true), Visit::Skip);
    assert_eq!(visit("debug", true, false, false), Visit::Pass);
    // manifests are probed
    assert_eq!(visit("Cargo.toml", false, false, false), Visit::Probe);
    assert_eq!(visit("Cargo.toml", false, false, true), Visit::Probe);
    assert_eq!(visit("Cargo.toml", true, false, false), Visit::Probe);
    assert_eq!(visit("Cargo.toml", true, false, true), Visit::Skip);
    assert_eq!(visit("cargo.toml", false, false, false), Visit::Pass);
    assert_eq!(visit("Cargo.lock", false, false, false), Visit::Pass);
}

#[test]
fn days_in_nanoseconds() {
    assert_eq!(DAY, 24 * 3600 * 1_000_000_000);
    assert_eq!(duration_of_days(0), 0);
    assert_eq!(duration_of_days(30), 2_592_000_000_000_000);
    assert_eq!(duration_of_days(u64::MAX), u64::MAX as u128 * DAY);
}

#[test]
fn sums_that_fit() {
    assert_eq!(length_sum(&vec![]), Some(0));
    assert_eq!(length_sum(&vec![1, 2, 3]), Some(6));
    assert_eq!(length_sum(&vec![u64::MAX, 0]), Some(u64::MAX));
    assert_eq!(length_sum(&vec![u64::MAX, 1]), None);
    assert_eq!(length_sum(&vec![1, u64::MAX, 5]), None);
}

#[test]
fn sizes_of_listings() {
    let listing = vec![
        file("liba-aaaaaaaaaaaaaaaa.rlib", 7),
        file("plain", u64::MAX),
        dir("a-aaaaaaaaaaaaaaaa", &[1, 2]),
        dir("untracked", &[u64::MAX, u64::MAX]),
    ];
    assert_eq!(listing_size(&listing), Some(10));
    let large = vec![
        file("liba-aaaaaaaaaaaaaaaa.rlib", u64::MAX),
        file("libb-bbbbbbbbbbbbbbbb.rlib", 1),
    ];
    assert_eq!(listing_size(&large), None);
    let deep = vec![dir("a-aaaaaaaaaaaaaaaa", &[u64::MAX, 1])];
    assert_eq!(listing_size(&deep), None);
}

#[test]
fn sizes_of_profiles() {
    let small = profile(vec![file("liba-aaaaaaaaaaaaaaaa.rlib", 7)]);
    let large = profile(vec![file("liba-aaaaaaaaaaaaaaaa.rlib", u64::MAX - 7)]);
    assert_eq!(small.size(), Some(7));
    assert_eq!(large.size(), Some(u64::MAX - 7));
    assert!(profiles_fit(&vec![]));
    assert!(profiles_fit(&vec![small.clone(), large.clone()]));
    assert!(!profiles_fit(&vec![small.clone(), large, small]));
    let mut split = profile(vec![file("liba-aaaaaaaaaaaaaaaa.rlib", u64::MAX)]);
    split.root = vec![file("a-aaaaaaaaaaaaaaaa", 1)];
    assert_eq!(split.size(), None);
    assert!(!profiles_fit(&vec![split]));
}

#[test]
fn keep_sets() {
    let mut keep = KeepSet::new();
    assert!(keep.is_empty());
    assert!(keep.insert("aaaaaaaaaaaaaaaa".to_string()));
    assert!(!keep.insert("aaaaaaaaaaaaaaaa".to_string()));
    assert!(keep.insert("AAAAAAAAAAAAAAAA".to_string()));
    assert_eq!(keep.len(), 2);
    assert!(keep.contains("aaaaaaaaaaaaaaaa"));
    assert!(!keep.contains("bbbbbbbbbbbbbbbb"));
    assert!(!keep.is_empty());
}
