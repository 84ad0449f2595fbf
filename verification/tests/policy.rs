use cargo_sweep::policy::{
    count_evicted, keep_of_profile, last_used_time, load_all_fingerprints_built_with,
    load_all_fingerprints_by_time, load_all_fingerprints_newer_than, rank_candidates, NEVER_USED,
};
use cargo_sweep::rank::{names_before, ranks_before, sort_candidates, text_before, Candidate};
use cargo_sweep::record::{is_json, Fingerprint, NotFound};
use cargo_sweep::snapshot::{Entry, EntryKind, Profile, RecordFile, Unit};
use std::collections::HashSet;

const DAY: u128 = 24 * 3600 * 1_000_000_000;

fn record(name: &str, rustc: Option<u64>) -> RecordFile {
    RecordFile {
        name: name.to_string(),
        rustc,
    }
}

fn unit(name: &str, rustc: Option<u64>, accessed: &[u128]) -> Unit {
    Unit {
        name: name.to_string(),
        records: vec![
            record("invoked.timestamp", None),
            record("lib-foo.json", rustc),
        ],
        accessed: accessed.to_vec(),
    }
}

fn file(name: &str, len: u64) -> Entry {
    Entry {
        path: format!("/t/debug/deps/{name}"),
        name: name.to_string(),
        kind: EntryKind::File,
        len,
        files: vec![],
    }
}

fn profile(location: &[&str], units: Vec<Unit>, deps: Vec<Entry>) -> Profile {
    Profile {
        location: location.iter().map(|s| s.to_string()).collect(),
        units,
        fingerprint: vec![],
        build: vec![],
        deps,
        native: None,
        root: vec![],
    }
}

fn set(ids: &[u64]) -> HashSet<u64> {
    ids.iter().copied().collect()
}

#[test]
fn json_extension() {
    assert!(is_json("lib-foo.json"));
    assert!(is_json("a.json"));
    assert!(is_json("..json"));
    assert!(is_json("a.b.json"));
    assert!(!is_json(".json"));
    assert!(!is_json("json"));
    assert!(!is_json("a.jsonl"));
    assert!(!is_json("a.JSON"));
    assert!(!is_json("a.json.bak"));
    assert!(!is_json(""));
}

#[test]
fn json_extension_agrees_with_paths() {
    for name in ["lib-foo.json", ".json", "..json", "a.json", "x.y.json", "json", "a.json."] {
        let expected = std::path::Path::new(name)
            .extension()
            .map_or(false, |e| e == "json");
        assert_eq!(is_json(name), expected, "{}", name);
    }
}

#[test]
fn first_record_that_parses_counts() {
    let records = vec![
        record("dep-lib-foo", Some(1)),
        record("broken.json", None),
        record("lib-foo.json", Some(7)),
        record("other.json", Some(9)),
    ];
    assert_eq!(Fingerprint::load(&records), Ok(Fingerprint { rustc: 7 }));
}

#[test]
fn no_record_is_not_found() {
    assert_eq!(Fingerprint::load(&vec![]), Err(NotFound));
    let records = vec![record("lib-foo", Some(1)), record("lib-foo.json", None)];
    assert_eq!(Fingerprint::load(&records), Err(NotFound));
}

#[test]
fn toolchain_policy_keeps_installed_and_unknown() {
    let units = vec![
        unit("a-aaaaaaaaaaaaaaaa", Some(11), &[]),
        unit("b-bbbbbbbbbbbbbbbb", Some(22), &[]),
        unit("c-cccccccccccccccc", None, &[]),
        unit("no-hash", Some(11), &[]),
    ];
    let keep = load_all_fingerprints_built_with(&units, &set(&[0, 11]));
    assert!(keep.contains("aaaaaaaaaaaaaaaa"));
    assert!(!keep.contains("bbbbbbbbbbbbbbbb"));
    assert!(keep.contains("cccccccccccccccc"));
    assert_eq!(keep.len(), 2);
}

#[test]
fn unit_without_record_is_kept_whatever_the_identities() {
    let units = vec![unit("c-cccccccccccccccc", None, &[])];
    assert!(load_all_fingerprints_built_with(&units, &set(&[])).contains("cccccccccccccccc"));
    assert!(load_all_fingerprints_built_with(&units, &set(&[5])).contains("cccccccccccccccc"));
}

#[test]
fn zero_identity_is_kept_with_looked_up_identities() {
    let units = vec![
        unit("build-script-0000000000000001", Some(0), &[]),
        unit("old-0000000000000002", Some(77), &[]),
    ];
    let ids = cargo_sweep::toolchain::lookup_from_names(&vec![]).unwrap();
    let keep = load_all_fingerprints_built_with(&units, &ids);
    assert!(keep.contains("0000000000000001"));
    assert!(!keep.contains("0000000000000002"));
}

#[test]
fn shared_hash_is_kept_if_one_unit_is() {
    let units = vec![
        unit("a-aaaaaaaaaaaaaaaa", Some(22), &[]),
        unit("b-aaaaaaaaaaaaaaaa", Some(11), &[]),
    ];
    let keep = load_all_fingerprints_built_with(&units, &set(&[11]));
    assert!(keep.contains("aaaaaaaaaaaaaaaa"));
    assert_eq!(keep.len(), 1);
}

#[test]
fn last_use_is_the_least_age() {
    assert_eq!(last_used_time(&vec![5, 3, 9]), 3);
    assert_eq!(last_used_time(&vec![7]), 7);
    assert_eq!(last_used_time(&vec![]), NEVER_USED);
    assert_eq!(NEVER_USED, 3_155_760_000u128 * 1_000_000_000);
    assert_eq!(last_used_time(&vec![NEVER_USED + 1]), NEVER_USED);
    assert_eq!(last_used_time(&vec![0, u128::MAX]), 0);
}

#[test]
fn age_policy_keeps_what_was_used_since() {
    let units = vec![
        unit("a-aaaaaaaaaaaaaaaa", None, &[0]),
        unit("b-bbbbbbbbbbbbbbbb", None, &[100 * DAY]),
        unit("c-cccccccccccccccc", None, &[200 * DAY, 29 * DAY]),
        unit("d-dddddddddddddddd", None, &[30 * DAY]),
        unit("e-eeeeeeeeeeeeeeee", None, &[]),
    ];
    let keep = load_all_fingerprints_newer_than(&units, 30 * DAY);
    assert!(keep.contains("aaaaaaaaaaaaaaaa"));
    assert!(!keep.contains("bbbbbbbbbbbbbbbb"));
    assert!(keep.contains("cccccccccccccccc"));
    // used exactly as long ago as the limit: not kept
    assert!(!keep.contains("dddddddddddddddd"));
    assert!(!keep.contains("eeeeeeeeeeeeeeee"));
    assert_eq!(keep.len(), 2);
}

#[test]
fn age_policy_with_no_time_keeps_nothing() {
    let units = vec![
        unit("a-aaaaaaaaaaaaaaaa", None, &[0]),
        unit("b-bbbbbbbbbbbbbbbb", None, &[1]),
        unit("c-cccccccccccccccc", None, &[]),
    ];
    let keep = load_all_fingerprints_newer_than(&units, 0);
    assert!(keep.is_empty());
    assert_eq!(keep.len(), 0);
}

#[test]
fn units_by_time() {
    let units = vec![
        unit("b-bbbbbbbbbbbbbbbb", None, &[9]),
        unit("plain", None, &[1]),
        unit("c-cccccccccccccccc", None, &[4, 2]),
        unit("a-aaaaaaaaaaaaaaaa", None, &[9]),
        unit("e-eeeeeeeeeeeeeeee", None, &[]),
    ];
    assert_eq!(
        load_all_fingerprints_by_time(&units),
        vec![
            (2, "cccccccccccccccc".to_string()),
            (9, "aaaaaaaaaaaaaaaa".to_string()),
            (9, "bbbbbbbbbbbbbbbb".to_string()),
            (NEVER_USED, "eeeeeeeeeeeeeeee".to_string()),
        ]
    );
}

#[test]
fn texts_are_ordered_as_strings_are() {
    let texts = ["", "a", "ab", "b", "B", "a-b", "a/b", "\u{e9}", "z", "zz", "\u{10348}", "\u{ffff}"];
    for a in texts {
        for b in texts {
            assert_eq!(text_before(a, b), a <= b, "{:?} {:?}", a, b);
        }
    }
}

#[test]
fn paths_are_ordered_as_paths_are() {
    let paths = [
        "/t/a/debug",
        "/t/a-b/debug",
        "/t/a/release",
        "/t/a",
        "/t/b/debug",
        "/t/a/debug/x",
        "/t",
    ];
    for a in paths {
        for b in paths {
            let left: Vec<String> = std::path::Path::new(a)
                .components()
                .map(|c| c.as_os_str().to_string_lossy().into_owned())
                .collect();
            let right: Vec<String> = std::path::Path::new(b)
                .components()
                .map(|c| c.as_os_str().to_string_lossy().into_owned())
                .collect();
            assert_eq!(
                names_before(&left, &right),
                std::path::Path::new(a) <= std::path::Path::new(b),
                "{:?} {:?}",
                a,
                b
            );
        }
    }
}

#[test]
fn candidates_are_ranked_as_tuples_are() {
    let here = vec!["t".to_string(), "debug".to_string()];
    let there = vec!["t".to_string(), "release".to_string()];
    let make = |last_used: u128, size: u64, location, hash: &str, profile: usize| Candidate {
        last_used,
        size,
        location,
        hash: hash.to_string(),
        profile,
    };
    let all = vec![
        make(5, 10, &here, "bbbbbbbbbbbbbbbb", 0),
        make(5, 10, &here, "aaaaaaaaaaaaaaaa", 0),
        make(5, 10, &there, "0000000000000000", 1),
        make(5, 9, &there, "ffffffffffffffff", 1),
        make(4, 99, &there, "ffffffffffffffff", 1),
        make(6, 0, &here, "0000000000000000", 0),
        make(5, 10, &here, "aaaaaaaaaaaaaaaa", 0),
    ];
    let mut expected: Vec<(u128, u64, Vec<String>, String)> = all
        .iter()
        .map(|c| (c.last_used, c.size, c.location.clone(), c.hash.clone()))
        .collect();
    for a in &all {
        for b in &all {
            let left = (a.last_used, a.size, a.location, &a.hash, a.profile);
            let right = (b.last_used, b.size, b.location, &b.hash, b.profile);
            assert_eq!(ranks_before(a, b), left <= right);
        }
    }
    expected.sort();
    let sorted: Vec<(u128, u64, Vec<String>, String)> = sort_candidates(all)
        .iter()
        .map(|c| (c.last_used, c.size, c.location.clone(), c.hash.clone()))
        .collect();
    assert_eq!(sorted, expected);
}

#[test]
fn candidates_carry_age_and_size() {
    let profiles = vec![
        profile(
            &["t", "debug"],
            vec![
                unit("a-aaaaaaaaaaaaaaaa", None, &[3, 1]),
                unit("plain", None, &[1]),
                unit("b-bbbbbbbbbbbbbbbb", None, &[]),
            ],
            vec![
                file("liba-aaaaaaaaaaaaaaaa.rlib", 10),
                file("liba-aaaaaaaaaaaaaaaa.rmeta", 5),
                file("libc-cccccccccccccccc.rlib", 7),
            ],
        ),
        profile(
            &["t", "release"],
            vec![unit("a-aaaaaaaaaaaaaaaa", None, &[8])],
            vec![file("a-aaaaaaaaaaaaaaaa", 100)],
        ),
    ];
    let candidates = rank_candidates(&profiles);
    let seen: Vec<(u128, u64, usize, &str, &[String])> = candidates
        .iter()
        .map(|c| {
            (
                c.last_used,
                c.size,
                c.profile,
                c.hash.as_str(),
                c.location.as_slice(),
            )
        })
        .collect();
    assert_eq!(
        seen,
        vec![
            (1, 15, 0, "aaaaaaaaaaaaaaaa", profiles[0].location.as_slice()),
            (
                NEVER_USED,
                0,
                0,
                "bbbbbbbbbbbbbbbb",
                profiles[0].location.as_slice()
            ),
            (8, 100, 1, "aaaaaaaaaaaaaaaa", profiles[1].location.as_slice()),
        ]
    );
}

#[test]
fn eviction_stops_before_the_excess_is_reached() {
    let nowhere = vec![];
    let make = |last_used: u128, size: u64, hash: &str, profile: usize| Candidate {
        last_used,
        size,
        location: &nowhere,
        hash: hash.to_string(),
        profile,
    };
    // newest first; sizes from the oldest: 10, 20, 5, 40
    let order = vec![
        make(1, 40, "dddddddddddddddd", 0),
        make(2, 5, "cccccccccccccccc", 1),
        make(3, 20, "bbbbbbbbbbbbbbbb", 0),
        make(4, 10, "aaaaaaaaaaaaaaaa", 1),
    ];
    assert_eq!(count_evicted(&order, 1), 0);
    assert_eq!(count_evicted(&order, 10), 0);
    assert_eq!(count_evicted(&order, 11), 1);
    assert_eq!(count_evicted(&order, 30), 1);
    assert_eq!(count_evicted(&order, 31), 2);
    assert_eq!(count_evicted(&order, 35), 2);
    assert_eq!(count_evicted(&order, 36), 3);
    assert_eq!(count_evicted(&order, 75), 3);
    assert_eq!(count_evicted(&order, 76), 4);
    assert_eq!(count_evicted(&order, u64::MAX), 4);
    assert_eq!(count_evicted(&vec![], 5), 0);

    let keep = keep_of_profile(&order, 3, 0);
    assert!(keep.contains("dddddddddddddddd"));
    assert!(keep.contains("bbbbbbbbbbbbbbbb"));
    assert_eq!(keep.len(), 2);
    let keep = keep_of_profile(&order, 3, 1);
    assert!(keep.contains("cccccccccccccccc"));
    assert!(!keep.contains("aaaaaaaaaaaaaaaa"));
    assert_eq!(keep.len(), 1);
    assert!(keep_of_profile(&order, 0, 0).is_empty());
}

#[test]
fn a_small_unit_after_a_large_one_is_not_given_up() {
    let nowhere = vec![];
    let make = |last_used: u128, size: u64, hash: &str| Candidate {
        last_used,
        size,
        location: &nowhere,
        hash: hash.to_string(),
        profile: 0,
    };
    // the oldest fits, the next does not, and the walk ends there
    let order = vec![
        make(1, 1, "cccccccccccccccc"),
        make(2, 100, "bbbbbbbbbbbbbbbb"),
        make(3, 10, "aaaaaaaaaaaaaaaa"),
    ];
    assert_eq!(count_evicted(&order, 50), 1);
}
