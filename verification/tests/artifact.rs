use cargo_sweep::artifact::hash_from_path_name;

#[test]
fn extracts_hash_from_library_name() {
    assert_eq!(
        hash_from_path_name("foo-a1b2c3d4e5f67890.rlib"),
        Some("a1b2c3d4e5f67890")
    );
}

#[test]
fn plain_name_has_no_hash() {
    assert_eq!(hash_from_path_name("foo.rlib"), None);
}

#[test]
fn short_suffix_is_no_hash() {
    assert_eq!(hash_from_path_name("foo-short.rlib"), None);
}

#[test]
fn directory_name_without_extension() {
    assert_eq!(
        hash_from_path_name("serde-0123456789abcdef"),
        Some("0123456789abcdef")
    );
}

#[test]
fn prefixed_name_takes_the_last_segment() {
    assert_eq!(
        hash_from_path_name("lib-my-crate-00ff00ff00ff00ff.d"),
        Some("00ff00ff00ff00ff")
    );
}

#[test]
fn upper_case_digits_count() {
    assert_eq!(
        hash_from_path_name("foo-ABCDEF0123456789.rlib"),
        Some("ABCDEF0123456789")
    );
}

#[test]
fn only_the_part_before_the_first_dot_counts() {
    assert_eq!(
        hash_from_path_name("foo-a1b2c3d4e5f67890.1.2.so"),
        Some("a1b2c3d4e5f67890")
    );
    assert_eq!(hash_from_path_name("foo.bar-a1b2c3d4e5f67890"), None);
}

#[test]
fn bare_hash_without_dash_is_no_artifact() {
    assert_eq!(hash_from_path_name("a1b2c3d4e5f67890"), None);
    assert_eq!(hash_from_path_name("a1b2c3d4e5f67890.rlib"), None);
}

#[test]
fn dash_with_nothing_before_it_is_no_artifact() {
    assert_eq!(hash_from_path_name("-a1b2c3d4e5f67890"), None);
    assert_eq!(hash_from_path_name("-a1b2c3d4e5f67890.rlib"), None);
    assert_eq!(
        hash_from_path_name("x-a1b2c3d4e5f67890.rlib"),
        Some("a1b2c3d4e5f67890")
    );
    assert_eq!(
        hash_from_path_name("--a1b2c3d4e5f67890"),
        Some("a1b2c3d4e5f67890")
    );
}

#[test]
fn wrong_length_is_no_hash() {
    assert_eq!(hash_from_path_name("foo-a1b2c3d4e5f6789"), None);
    assert_eq!(hash_from_path_name("foo-a1b2c3d4e5f678901"), None);
    assert_eq!(hash_from_path_name("foo-"), None);
}

#[test]
fn non_hex_character_is_no_hash() {
    assert_eq!(hash_from_path_name("foo-a1b2c3d4e5f6789g"), None);
    assert_eq!(hash_from_path_name("foo-a1b2c3d4e5f6789\u{e9}"), None);
}

#[test]
fn seventeen_hex_digits_after_a_short_dash() {
    // the dash has to stand right before the sixteen digits
    assert_eq!(hash_from_path_name("foo-0a1b2c3d4e5f67890"), None);
    assert_eq!(
        hash_from_path_name("foo-0-a1b2c3d4e5f67890"),
        Some("a1b2c3d4e5f67890")
    );
}

#[test]
fn empty_and_dotted_names() {
    assert_eq!(hash_from_path_name(""), None);
    assert_eq!(hash_from_path_name(".fingerprint"), None);
    assert_eq!(hash_from_path_name("."), None);
}

#[test]
fn names_with_wide_characters() {
    assert_eq!(
        hash_from_path_name("b\u{fc}cher-a1b2c3d4e5f67890.rlib"),
        Some("a1b2c3d4e5f67890")
    );
}
