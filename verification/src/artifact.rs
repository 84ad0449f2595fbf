//! The hash that ties the files of one compiled unit together.
//!
//! Tracked files and directories are named
//! `({prefix}-)?{name}-{16 hex digits}(.{extension})?`, with a name that is
//! not empty.

use vstd::prelude::*;
use vstd::string::StrSliceExecFns;
use crate::text::{run_end, run_len, Run};

verus! {

/// Number of characters in an artifact hash.
pub const HASH_LEN: usize = 16;

/// `c` is one of `0-9`, `a-f`, `A-F`.
pub open spec fn is_hex_digit(c: char) -> bool {
    ('0' <= c && c <= '9') || ('a' <= c && c <= 'f') || ('A' <= c && c <= 'F')
}

/// The part of `name` before its first dot; all of `name` where it has none.
pub open spec fn stem(name: Seq<char>) -> Seq<char> {
    name.take(run_len(name, Run::Stem))
}

/// Every character of `s` is a hex digit.
pub open spec fn all_hex(s: Seq<char>) -> bool {
    forall|i: int| 0 <= i < s.len() ==> is_hex_digit(#[trigger] s[i])
}

/// The hash in a file name: the last sixteen characters of the stem, when
/// they are hex digits, a dash stands right before them, and something
/// stands before the dash.
pub open spec fn artifact_hash(name: Seq<char>) -> Option<Seq<char>> {
    let st = stem(name);
    let n = st.len() as int;
    if n > HASH_LEN + 1 && st[n - HASH_LEN - 1] == '-' && all_hex(st.skip(n - HASH_LEN)) {
        Some(st.skip(n - HASH_LEN))
    } else {
        None
    }
}

fn is_hex(c: char) -> (r: bool)
    ensures
        r == is_hex_digit(c),
{
    (c >= '0' && c <= '9') || (c >= 'a' && c <= 'f') || (c >= 'A' && c <= 'F')
}

/// Returns the hash of a tracked file or directory name, `None` when the name
/// is not of the tracked form.
pub fn hash_from_path_name(filename: &str) -> (hash: Option<&str>)
    ensures
        match hash {
            Some(h) => artifact_hash(filename@) == Some(h@),
            None => artifact_hash(filename@) is None,
        },
{
    proof {
        assert(filename@.skip(0) =~= filename@);
    }
    let end = run_end(filename, 0, Run::Stem);
    if end <= HASH_LEN + 1 {
        return None;
    }
    let start = end - HASH_LEN;
    if filename.get_char(start - 1) != '-' {
        return None;
    }
    let ghost st = stem(filename@);
    let mut i: usize = start;
    while i < end
        invariant
            start <= i <= end,
            end <= filename@.len(),
            end == st.len(),
            start == end - HASH_LEN,
            st == stem(filename@),
            st == filename@.take(end as int),
            forall|j: int| start <= j < i ==> is_hex_digit(filename@[j]),
        decreases end - i,
    {
        if !is_hex(filename.get_char(i)) {
            proof {
                let tail = st.skip(st.len() - HASH_LEN);
                assert(tail[i - start] == filename@[i as int]);
            }
            return None;
        }
        i += 1;
    }
    proof {
        let tail = st.skip(st.len() - HASH_LEN);
        assert forall|j: int| 0 <= j < tail.len() implies is_hex_digit(#[trigger] tail[j]) by {
            assert(tail[j] == filename@[start + j]);
        }
        assert(filename@.subrange(start as int, end as int) =~= tail);
    }
    Some(filename.substring_char(start, end))
}

} // verus!
