#![allow(deprecated)]
use cargo_sweep::toolchain::{
    check_toolchains, contains_name, copy_names, hash_toolchains, is_custom_toolchain,
    lookup_from_names, lookup_run, no_toolchains, rustup_toolchain_list, take_run,
    toolchains_to_query, RustcOutput, RustcRun, ToolchainError,
};
use rustc_stable_hash::StableSipHasher128;
use std::collections::HashSet;
use std::hash::{Hash, Hasher, SipHasher};

const STABLE: &str = "rustc 1.80.0 (051478957 2024-07-21)\nbinary: rustc\ncommit-hash: 051478957371ee0084a7c0913941d2a8c4757bb9\ncommit-date: 2024-07-21\nhost: x86_64-unknown-linux-gnu\nrelease: 1.80.0\nLLVM version: 18.1.7\n";
const NIGHTLY: &str = "rustc 1.82.0-nightly (fbccf5053 2024-07-27)\nbinary: rustc\nhost: x86_64-unknown-linux-gnu\nrelease: 1.82.0-nightly\n";

fn current(text: &str) -> u64 {
    let mut hasher = StableSipHasher128::new();
    text.hash(&mut hasher);
    Hasher::finish(&hasher)
}

fn legacy(text: &str) -> u64 {
    let mut hasher = SipHasher::new_with_keys(0, 0);
    text.hash(&mut hasher);
    hasher.finish()
}

fn ok(toolchain: Option<&str>, stdout: &str) -> RustcRun {
    RustcRun {
        toolchain: toolchain.map(str::to_string),
        output: Some(RustcOutput {
            success: true,
            stdout: stdout.to_string(),
            stderr: String::new(),
        }),
    }
}

fn failed(toolchain: Option<&str>, stdout: &str, stderr: &str) -> RustcRun {
    RustcRun {
        toolchain: toolchain.map(str::to_string),
        output: Some(RustcOutput {
            success: false,
            stdout: stdout.to_string(),
            stderr: stderr.to_string(),
        }),
    }
}

fn names(list: &[&str]) -> Vec<String> {
    list.iter().map(|s| s.to_string()).collect()
}

#[test]
fn test_custom_toolchain() {
    let custom_toolchains = [
        "1", "1.", "1.x", "1.x.x", "stablex", "stage1", "r2-stage1", "e9b1f9380fec42aa93b6998a1e1a1dc2ae9adaff",
    ];
    for toolchain in custom_toolchains {
        assert!(is_custom_toolchain(toolchain), "{}", toolchain);
    }

    let standard_toolchains = [
        "stable", "beta", "nightly", "stable-x86_64-unknown-linux-gnu",
        "beta-2022-05-20-x86_64-unknown-linux-gnu", "1.22-x86_64-unknown-linux-gnu",
        "1.22", "1.22.0", "1.0.0",
    ];
    for toolchain in standard_toolchains {
        assert!(!is_custom_toolchain(toolchain), "{}", toolchain);
    }
}

#[test]
fn empty_name_is_not_custom() {
    assert!(!is_custom_toolchain(""));
}

#[test]
fn version_numbers_have_two_or_three_parts() {
    assert!(is_custom_toolchain("1.2.3.4"));
    assert!(is_custom_toolchain(".1.2"));
    assert!(is_custom_toolchain("1..2"));
    assert!(is_custom_toolchain("1.2."));
    assert!(is_custom_toolchain("1.2.3.4-x86_64-unknown-linux-gnu"));
    assert!(!is_custom_toolchain("10.200.3000"));
    assert!(!is_custom_toolchain("1.75.0-x86_64-unknown-linux-gnu"));
    assert!(is_custom_toolchain("-1.75"));
    assert!(is_custom_toolchain("\u{661}.\u{662}"));
}

#[test]
fn channel_names_need_a_dash_after_them() {
    assert!(is_custom_toolchain("nightlyish"));
    assert!(is_custom_toolchain("betamax-1"));
    assert!(is_custom_toolchain("Stable"));
    assert!(!is_custom_toolchain("nightly-2024-01-01"));
    assert!(!is_custom_toolchain("stable-"));
}

#[test]
fn listing_takes_the_first_word_of_each_line() {
    let text = "stable-x86_64-unknown-linux-gnu (default)\nnightly-x86_64-unknown-linux-gnu\n1.70.0-x86_64-unknown-linux-gnu (override)\n";
    assert_eq!(
        rustup_toolchain_list(Some(text)),
        Some(names(&[
            "stable-x86_64-unknown-linux-gnu",
            "nightly-x86_64-unknown-linux-gnu",
            "1.70.0-x86_64-unknown-linux-gnu"
        ]))
    );
}

#[test]
fn listing_passes_over_blank_lines_and_leading_space() {
    let text = "\n  \t stage1 (default)\r\n\n\u{a0}custom\u{2003}x\nlast";
    assert_eq!(
        rustup_toolchain_list(Some(text)),
        Some(names(&["stage1", "custom", "last"]))
    );
    assert_eq!(rustup_toolchain_list(Some("")), Some(vec![]));
    assert_eq!(rustup_toolchain_list(Some("  \n \n")), Some(vec![]));
}

#[test]
fn listing_agrees_with_split_whitespace() {
    let text = "a b\n\n  c\td \n\u{3000}e\u{85}f\n\u{1680}\n g";
    let expected: Vec<String> = text
        .split('\n')
        .filter_map(|x| x.split_whitespace().next())
        .map(|x| x.trim().to_owned())
        .collect();
    assert_eq!(rustup_toolchain_list(Some(text)), Some(expected));
}

#[test]
fn no_listing_gives_none() {
    assert_eq!(rustup_toolchain_list(None), None);
}

#[test]
fn lookup_gives_both_hashes_and_zero() {
    let set = lookup_from_names(&vec![ok(Some("stable"), STABLE)]).unwrap();
    let expected: HashSet<u64> = [0, current(STABLE), legacy(STABLE)].into_iter().collect();
    assert_eq!(set, expected);
    assert_eq!(set.len(), 3);
    assert_ne!(current(STABLE), legacy(STABLE));
}

#[test]
fn lookup_of_two_toolchains() {
    let runs = vec![ok(Some("stable"), STABLE), ok(Some("nightly"), NIGHTLY)];
    let set = lookup_from_names(&runs).unwrap();
    let expected: HashSet<u64> = [
        0,
        current(STABLE),
        legacy(STABLE),
        current(NIGHTLY),
        legacy(NIGHTLY),
    ]
    .into_iter()
    .collect();
    assert_eq!(set, expected);
    assert_eq!(set.len(), 5);
}

#[test]
fn lookup_of_nothing_holds_zero_alone() {
    let set = lookup_from_names(&vec![]).unwrap();
    let expected: HashSet<u64> = [0].into_iter().collect();
    assert_eq!(set, expected);
}

#[test]
fn failure_of_a_custom_toolchain_is_passed_over() {
    let runs = vec![
        failed(Some("stage1"), "", "error: toolchain 'stage1' is broken"),
        ok(Some("stable"), STABLE),
    ];
    let set = lookup_from_names(&runs).unwrap();
    let expected: HashSet<u64> = [0, current(STABLE), legacy(STABLE)].into_iter().collect();
    assert_eq!(set, expected);
}

#[test]
fn failure_of_a_standard_toolchain_is_an_error() {
    let runs = vec![
        ok(Some("nightly"), NIGHTLY),
        failed(Some("stable"), "oh no an error", "and more"),
        ok(Some("beta"), STABLE),
    ];
    match lookup_from_names(&runs) {
        Err(ToolchainError::Failed { toolchain, message }) => {
            assert_eq!(toolchain, "stable");
            assert_eq!(message, "oh no an error");
        }
        other => panic!("{:?}", other),
    }
}

#[test]
fn failure_message_falls_back_to_standard_error() {
    let runs = vec![failed(Some("1.70.0"), "", "error: not installed")];
    match lookup_from_names(&runs) {
        Err(ToolchainError::Failed { toolchain, message }) => {
            assert_eq!(toolchain, "1.70.0");
            assert_eq!(message, "error: not installed");
        }
        other => panic!("{:?}", other),
    }
}

#[test]
fn failure_of_the_default_toolchain_is_an_error() {
    let runs = vec![failed(None, "oh no an error", "")];
    match lookup_from_names(&runs) {
        Err(ToolchainError::Failed { toolchain, message }) => {
            assert_eq!(toolchain, "");
            assert_eq!(message, "oh no an error");
        }
        other => panic!("{:?}", other),
    }
}

#[test]
fn rustc_that_cannot_be_run_is_an_error() {
    let runs = vec![
        failed(Some("stage1"), "", ""),
        RustcRun {
            toolchain: Some("custom".to_string()),
            output: None,
        },
    ];
    assert!(matches!(
        lookup_from_names(&runs),
        Err(ToolchainError::NotRun)
    ));
}

#[test]
fn named_toolchains_have_to_be_installed() {
    let wanted = names(&["stable", "1.60.0", "nightly"]);
    let installed = names(&["nightly", "stable"]);
    match hash_toolchains(Some(&wanted), Some(&installed), &vec![]) {
        Err(ToolchainError::NotInstalled {
            toolchain,
            available,
        }) => {
            assert_eq!(toolchain, "1.60.0");
            assert_eq!(available, installed);
        }
        other => panic!("{:?}", other),
    }
}

#[test]
fn named_toolchains_need_a_listing() {
    let wanted = names(&["stable"]);
    assert!(matches!(
        hash_toolchains(Some(&wanted), None, &vec![ok(Some("stable"), STABLE)]),
        Err(ToolchainError::NoListing)
    ));
    assert!(matches!(
        check_toolchains(Some(&wanted), None),
        Err(ToolchainError::NoListing)
    ));
}

#[test]
fn installed_names_are_looked_up() {
    let wanted = names(&["stable"]);
    let installed = names(&["nightly", "stable"]);
    let set = hash_toolchains(
        Some(&wanted),
        Some(&installed),
        &vec![ok(Some("stable"), STABLE)],
    )
    .unwrap();
    let expected: HashSet<u64> = [0, current(STABLE), legacy(STABLE)].into_iter().collect();
    assert_eq!(set, expected);
    assert!(check_toolchains(Some(&wanted), Some(&installed)).is_ok());
    assert!(check_toolchains(None, None).is_ok());
}

#[test]
fn without_names_the_runs_are_looked_up() {
    let set = hash_toolchains(None, None, &vec![ok(None, NIGHTLY)]).unwrap();
    let expected: HashSet<u64> = [0, current(NIGHTLY), legacy(NIGHTLY)]
        .into_iter()
        .collect();
    assert_eq!(set, expected);
}

#[test]
fn zero_is_always_among_the_identities() {
    let installed = names(&["stage1"]);
    let set = hash_toolchains(
        None,
        Some(&installed),
        &vec![failed(Some("stage1"), "", "broken")],
    )
    .unwrap();
    assert!(set.contains(&0));
    assert_eq!(set.len(), 1);
}

#[test]
fn which_toolchains_are_queried() {
    let wanted = names(&["stable", "beta"]);
    let installed = names(&["nightly", "stable", "beta"]);
    assert_eq!(
        toolchains_to_query(Some(&wanted), Some(&installed)),
        vec![Some("stable".to_string()), Some("beta".to_string())]
    );
    assert_eq!(
        toolchains_to_query(None, Some(&installed)),
        vec![
            Some("nightly".to_string()),
            Some("stable".to_string()),
            Some("beta".to_string())
        ]
    );
    assert_eq!(toolchains_to_query(None, None), vec![None]);
}

#[test]
fn one_run_with_given_hashes() {
    let mut set: HashSet<u64> = [0].into_iter().collect();
    assert!(take_run(&mut set, &ok(Some("stable"), STABLE), (11, 22)).is_ok());
    let expected: HashSet<u64> = [0, 11, 22].into_iter().collect();
    assert_eq!(set, expected);

    assert!(take_run(&mut set, &failed(Some("stage1"), "", ""), (33, 44)).is_ok());
    assert_eq!(set, expected);

    assert!(matches!(
        take_run(&mut set, &failed(Some("beta"), "", "no"), (33, 44)),
        Err(ToolchainError::Failed { .. })
    ));
    assert_eq!(set, expected);
}

#[test]
fn names_in_a_list() {
    let list = names(&["stable", "nightly"]);
    assert!(contains_name(&list, &"nightly".to_string()));
    assert!(!contains_name(&list, &"night".to_string()));
    assert!(!contains_name(&vec![], &"stable".to_string()));
    assert_eq!(copy_names(&list), list);
}

#[test]
fn one_run_at_a_time() {
    let mut set = no_toolchains();
    let zero: HashSet<u64> = [0].into_iter().collect();
    assert_eq!(set, zero);

    assert!(lookup_run(&mut set, &failed(Some("stage1"), "out", "err")).is_ok());
    assert_eq!(set, zero);

    assert!(lookup_run(&mut set, &ok(Some("nightly"), NIGHTLY)).is_ok());
    let expected: HashSet<u64> = [0, current(NIGHTLY), legacy(NIGHTLY)]
        .into_iter()
        .collect();
    assert_eq!(set, expected);

    match lookup_run(&mut set, &failed(Some("stable"), "", "broken")) {
        Err(ToolchainError::Failed { toolchain, message }) => {
            assert_eq!(toolchain, "stable");
            assert_eq!(message, "broken");
        }
        other => panic!("{:?}", other),
    }
    assert_eq!(set, expected);

    let not_run = RustcRun {
        toolchain: None,
        output: None,
    };
    assert!(matches!(
        lookup_run(&mut set, &not_run),
        Err(ToolchainError::NotRun)
    ));
    assert_eq!(set, expected);
}

#[test]
fn runs_one_by_one_give_what_a_lookup_gives() {
    let runs = vec![
        ok(Some("stable"), STABLE),
        failed(Some("r2-stage1"), "", "broken"),
        ok(None, NIGHTLY),
    ];
    let mut set = no_toolchains();
    for run in &runs {
        lookup_run(&mut set, run).unwrap();
    }
    assert_eq!(set, lookup_from_names(&runs).unwrap());
}
