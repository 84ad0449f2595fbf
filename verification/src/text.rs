//! Texts: runs of characters and prefixes.

use vstd::prelude::*;
use vstd::string::StrSliceExecFns;

verus! {

/// The texts of `names`.
pub open spec fn texts(names: Seq<String>) -> Seq<Seq<char>> {
    names.map_values(|name: String| name@)
}

/// `c` is white space: one of the code points with the Unicode property
/// `White_Space`.
pub open spec fn is_whitespace(c: char) -> bool {
    let u = c as u32;
    (0x09 <= u && u <= 0x0d) || u == 0x20 || u == 0x85 || u == 0xa0 || u == 0x1680 || (0x2000 <= u
        && u <= 0x200a) || u == 0x2028 || u == 0x2029 || u == 0x202f || u == 0x205f || u
        == 0x3000
}

/// A kind of run of characters.
#[derive(Clone, Copy, Debug, PartialEq, Eq, Structural)]
pub enum Run {
    /// White space other than a line feed.
    Blank,
    /// Anything but white space.
    Word,
    /// Anything but a line feed.
    Line,
    /// Anything but a dash.
    Segment,
    /// Anything but a dot.
    Stem,
    /// White space.
    Space,
    /// Decimal digits and dots.
    Number,
}

/// `c` can stand in a run of the kind `run`.
pub open spec fn in_run(run: Run, c: char) -> bool {
    match run {
        Run::Blank => is_whitespace(c) && c != '\n',
        Run::Word => !is_whitespace(c),
        Run::Line => c != '\n',
        Run::Segment => c != '-',
        Run::Stem => c != '.',
        Run::Space => is_whitespace(c),
        Run::Number => ('0' <= c && c <= '9') || c == '.',
    }
}

/// The length of the longest run of the kind `run` that `text` begins with.
pub open spec fn run_len(text: Seq<char>, run: Run) -> int
    decreases text.len(),
{
    if text.len() == 0 || !in_run(run, text[0]) {
        0
    } else {
        1 + run_len(text.drop_first(), run)
    }
}

/// What `run_len` finds: a position within `text`, with only characters of the
/// run before it and the end of `text` or another character at it.
pub proof fn lemma_run_len(text: Seq<char>, run: Run)
    ensures
        0 <= run_len(text, run) <= text.len(),
        forall|i: int| 0 <= i < run_len(text, run) ==> in_run(run, #[trigger] text[i]),
        run_len(text, run) < text.len() ==> !in_run(run, text[run_len(text, run)]),
    decreases text.len(),
{
    if text.len() == 0 || !in_run(run, text[0]) {
    } else {
        let rest = text.drop_first();
        lemma_run_len(rest, run);
        assert forall|i: int| 0 <= i < run_len(text, run) implies in_run(run, #[trigger] text[i]) by {
            if i > 0 {
                assert(text[i] == rest[i - 1]);
            }
        }
        if run_len(text, run) < text.len() {
            assert(text[run_len(text, run)] == rest[run_len(rest, run)]);
        }
    }
}

/// A position with only characters of the run before it and the end of `text`
/// or another character at it is `run_len`.
pub proof fn lemma_run_len_is(text: Seq<char>, run: Run, k: int)
    requires
        0 <= k <= text.len(),
        forall|i: int| 0 <= i < k ==> in_run(run, #[trigger] text[i]),
        k < text.len() ==> !in_run(run, text[k]),
    ensures
        run_len(text, run) == k,
{
    lemma_run_len(text, run);
    let m = run_len(text, run);
    if m < k {
        assert(in_run(run, text[m]));
    } else if k < m {
        assert(in_run(run, text[k]));
    }
}

/// Whether `c` is white space.
pub fn char_is_whitespace(c: char) -> (r: bool)
    ensures
        r == is_whitespace(c),
{
    let u = c as u32;
    (0x09 <= u && u <= 0x0d) || u == 0x20 || u == 0x85 || u == 0xa0 || u == 0x1680 || (0x2000 <= u
        && u <= 0x200a) || u == 0x2028 || u == 0x2029 || u == 0x202f || u == 0x205f || u
        == 0x3000
}

/// Whether `c` can stand in a run of the kind `run`.
pub fn char_in_run(run: Run, c: char) -> (r: bool)
    ensures
        r == in_run(run, c),
{
    match run {
        Run::Blank => char_is_whitespace(c) && c != '\n',
        Run::Word => !char_is_whitespace(c),
        Run::Line => c != '\n',
        Run::Segment => c != '-',
        Run::Stem => c != '.',
        Run::Space => char_is_whitespace(c),
        Run::Number => (c >= '0' && c <= '9') || c == '.',
    }
}

/// The end of the longest run of the kind `run` that starts at `from`.
pub fn run_end(text: &str, from: usize, run: Run) -> (end: usize)
    requires
        from <= text@.len(),
    ensures
        end == from + run_len(text@.skip(from as int), run),
        from <= end <= text@.len(),
{
    let len = text.unicode_len();
    let mut end = from;
    while end < len && char_in_run(run, text.get_char(end))
        invariant
            len == text@.len(),
            from <= end <= len,
            forall|i: int| from <= i < end ==> in_run(run, #[trigger] text@[i]),
        decreases len - end,
    {
        end += 1;
    }
    proof {
        let tail = text@.skip(from as int);
        assert forall|i: int| 0 <= i < end - from implies in_run(run, #[trigger] tail[i]) by {
            assert(tail[i] == text@[from + i]);
        }
        if end - from < tail.len() {
            assert(tail[end - from] == text@[end as int]);
        }
        lemma_run_len_is(tail, run, end - from);
    }
    end
}

/// Whether `text` begins with `prefix`.
pub fn has_prefix(text: &str, prefix: &str) -> (r: bool)
    ensures
        r == prefix@.is_prefix_of(text@),
{
    let n = prefix.unicode_len();
    if text.unicode_len() < n {
        return false;
    }
    let mut i: usize = 0;
    while i < n
        invariant
            i <= n,
            n == prefix@.len(),
            n <= text@.len(),
            forall|k: int| 0 <= k < i ==> text@[k] == prefix@[k],
        decreases n - i,
    {
        if text.get_char(i) != prefix.get_char(i) {
            proof {
                assert(text@.subrange(0, n as int)[i as int] != prefix@[i as int]);
            }
            return false;
        }
        i += 1;
    }
    proof {
        assert(text@.subrange(0, n as int) =~= prefix@);
    }
    true
}

} // verus!
