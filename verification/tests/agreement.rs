use cargo_sweep::artifact::hash_from_path_name;
use cargo_sweep::cli::parse_u64;
use cargo_sweep::snapshot::{Entry, EntryKind, Profile, Unit};
use cargo_sweep::sweep::remove_older_until_fits;
use cargo_sweep::text::{char_is_whitespace, has_prefix, run_end, Run};
use cargo_sweep::toolchain::{is_custom_toolchain, rustup_toolchain_list};
use std::collections::{HashMap, HashSet};

struct Dice(u64);

impl Dice {
    fn roll(&mut self) -> u64 {
        self.0 ^= self.0 << 13;
        self.0 ^= self.0 >> 7;
        self.0 ^= self.0 << 17;
        self.0
    }

    fn below(&mut self, n: usize) -> usize {
        (self.roll() % n as u64) as usize
    }

    fn text(&mut self, alphabet: &[char], longest: usize) -> String {
        let len = self.below(longest + 1);
        (0..len).map(|_| alphabet[self.below(alphabet.len())]).collect()
    }
}

#[test]
fn white_space_is_what_the_standard_library_calls_so() {
    for code in 0..=0x10ffffu32 {
        if let Some(c) = char::from_u32(code) {
            assert_eq!(char_is_whitespace(c), c.is_whitespace(), "{:x}", code);
        }
    }
}

#[test]
fn hex_digits_are_the_ascii_ones() {
    for code in 0..=0x2ffu32 {
        if let Some(c) = char::from_u32(code) {
            let name = format!("a-0123456789abcde{c}");
            assert_eq!(
                hash_from_path_name(&name).is_some(),
                c.is_ascii_hexdigit(),
                "{:x}",
                code
            );
        }
    }
}

#[test]
fn hashes_of_scattered_names() {
    let alphabet = ['a', 'f', '0', '9', '-', '.', 'g', 'A', '\u{e9}'];
    let mut dice = Dice(0x1234_5678_9abc_def1);
    let mut found = 0;
    for _ in 0..20000 {
        let mut name = dice.text(&alphabet, 6);
        if dice.below(2) == 0 {
            name.push('-');
            name.push_str(&dice.text(&['a', 'f', '0', '9', 'A'], 17));
        }
        if dice.below(3) == 0 {
            name.push_str(&dice.text(&alphabet, 4));
        }
        // the part before the first dot, and of it what follows the last
        // dash, with something before that dash
        let stem = name.split('.').next().unwrap();
        let tail = stem.rsplit('-').next().unwrap();
        let expected = if stem.len() > tail.len() + 1
            && tail.chars().count() == 16
            && tail.chars().all(|c| c.is_ascii_hexdigit())
        {
            Some(tail)
        } else {
            None
        };
        assert_eq!(hash_from_path_name(&name), expected, "{:?}", name);
        if expected.is_some() {
            found += 1;
        }
    }
    assert!(found > 100);
}

#[test]
fn custom_toolchains_among_scattered_names() {
    let alphabet = ['1', '2', '.', '-', 's', 't', 'a', 'b', 'l', 'e', 'x'];
    let heads = ["", "stable", "beta", "nightly", "1.2", "1.2.3", "10.20", "1", "1.2.3.4"];
    let mut dice = Dice(0x0dd_ba11_5eed);
    for _ in 0..20000 {
        let name = format!(
            "{}{}",
            heads[dice.below(heads.len())],
            dice.text(&alphabet, 5)
        );
        let channel = ["stable", "beta", "nightly"]
            .iter()
            .any(|c| name == *c || name.starts_with(&format!("{c}-")));
        let first = name.split('-').next().unwrap();
        let parts: Vec<&str> = first.split('.').collect();
        let version = (parts.len() == 2 || parts.len() == 3)
            && parts
                .iter()
                .all(|p| !p.is_empty() && p.chars().all(|c| c.is_ascii_digit()));
        let expected = !name.is_empty() && !channel && !version;
        assert_eq!(is_custom_toolchain(&name), expected, "{:?}", name);
    }
}

#[test]
fn listings_of_scattered_texts() {
    let alphabet = ['a', 'b', ' ', '\t', '\n', '\r', '(', '\u{a0}', '-'];
    let mut dice = Dice(0xfeed_f00d_cafe);
    for _ in 0..5000 {
        let text = dice.text(&alphabet, 30);
        let expected: Vec<String> = text
            .split('\n')
            .filter_map(|x| x.split_whitespace().next())
            .map(|x| x.to_owned())
            .collect();
        assert_eq!(rustup_toolchain_list(Some(&text)), Some(expected), "{:?}", text);
    }
}

#[test]
fn numbers_of_scattered_texts() {
    let alphabet = ['0', '1', '9', '+', '-', ' ', 'a'];
    let mut dice = Dice(0xabcdef);
    for _ in 0..20000 {
        let text = dice.text(&alphabet, 4);
        assert_eq!(parse_u64(&text), text.parse::<u64>().ok(), "{:?}", text);
        let long = format!("1844674407370955{}", dice.text(&['0', '1', '5', '6', '9'], 5));
        assert_eq!(parse_u64(&long), long.parse::<u64>().ok(), "{:?}", long);
    }
}

#[test]
fn runs_and_prefixes() {
    assert_eq!(run_end("  \n x", 0, Run::Blank), 2);
    assert_eq!(run_end("  \n x", 0, Run::Space), 4);
    assert_eq!(run_end("ab cd", 0, Run::Word), 2);
    assert_eq!(run_end("ab cd", 2, Run::Word), 2);
    assert_eq!(run_end("ab cd", 3, Run::Word), 5);
    assert_eq!(run_end("ab\ncd", 1, Run::Line), 2);
    assert_eq!(run_end("1.25MB", 0, Run::Number), 4);
    assert_eq!(run_end("a-b.c", 0, Run::Segment), 1);
    assert_eq!(run_end("a-b.c", 0, Run::Stem), 3);
    assert_eq!(run_end("", 0, Run::Stem), 0);
    assert_eq!(run_end("h\u{e9}-", 0, Run::Segment), 2);
    assert!(has_prefix("stable-x", "stable"));
    assert!(has_prefix("stable", "stable"));
    assert!(has_prefix("stable", ""));
    assert!(!has_prefix("stabl", "stable"));
    assert!(!has_prefix("unstable", "stable"));
}

/// A tree of scattered units and what a plain walk over them frees.
#[test]
fn size_policy_on_scattered_trees() {
    let mut dice = Dice(0x5eed_5eed_5eed);
    for round in 0..300 {
        let mut profiles = Vec::new();
        // (age, size, location, hash, profile)
        let mut units: Vec<(u128, u64, Vec<String>, String, usize)> = Vec::new();
        let mut loose = 0u64;
        for p in 0..1 + dice.below(3) {
            let location = vec!["t".to_string(), format!("p{}", 2 - p)];
            let mut listed = Vec::new();
            let mut deps = Vec::new();
            let mut sizes: HashMap<String, u64> = HashMap::new();
            let mut hashes = HashSet::new();
            for _ in 0..dice.below(6) {
                let hash = format!("{:016x}", dice.below(8));
                if !hashes.insert(hash.clone()) {
                    continue;
                }
                let age = dice.below(4) as u128;
                for _ in 0..dice.below(3) {
                    let len = dice.below(5) as u64;
                    *sizes.entry(hash.clone()).or_default() += len;
                    deps.push(Entry {
                        path: format!("t/p{}/deps/x-{hash}", 2 - p),
                        name: format!("x-{hash}.rlib"),
                        kind: EntryKind::File,
                        len,
                        files: vec![],
                    });
                }
                listed.push(Unit {
                    name: format!("x-{hash}"),
                    records: vec![],
                    accessed: vec![age],
                });
                units.push((age, 0, location.clone(), hash, p));
            }
            for unit in units.iter_mut().filter(|u| u.4 == p) {
                unit.1 = *sizes.get(&unit.3).unwrap_or(&0);
            }
            // something that belongs to no unit
            let orphan = dice.below(3) as u64;
            deps.push(Entry {
                path: "orphan".to_string(),
                name: "y-ffffffffffffffff.rlib".to_string(),
                kind: EntryKind::File,
                len: orphan,
                files: vec![],
            });
            loose += orphan;
            profiles.push(Profile {
                location,
                units: listed,
                fingerprint: vec![],
                build: vec![],
                deps,
                native: None,
                root: vec![],
            });
        }
        let held: u64 = units.iter().map(|u| u.1).sum::<u64>() + loose;
        let total = held + dice.below(10) as u64;
        let target = dice.below(total as usize + 2) as u64;

        // newest first; from the oldest on, units go while what they take
        // stays below the excess
        units.sort();
        let mut expected = 0;
        if total > target {
            let excess = total - target;
            for unit in units.iter().rev() {
                if expected + unit.1 < excess {
                    expected += unit.1;
                } else {
                    break;
                }
            }
            expected += loose;
        }
        let sweep = remove_older_until_fits(&vec![total], &profiles, target, round % 2 == 0);
        assert_eq!(sweep.freed, expected, "round {}", round);
    }
}
