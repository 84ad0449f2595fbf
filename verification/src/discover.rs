//! Finding what to sweep: which directories a search passes over, and which
//! directory marks a build profile.

use vstd::prelude::*;
use vstd::string::StrSliceExecFns;
use crate::text::{has_prefix, texts};

verus! {

/// The name of the directory that marks a build profile.
pub open spec fn marker() -> Seq<char> {
    ".fingerprint"@
}

/// The name of the file that marks a project.
pub open spec fn manifest() -> Seq<char> {
    "Cargo.toml"@
}

/// Whether `name` is the name of the directory that marks a build profile.
pub fn is_marker(name: &str) -> (r: bool)
    ensures
        r == (name@ == marker()),
{
    same_text(name, ".fingerprint")
}

/// Whether `a` and `b` are the same text.
pub fn same_text(a: &str, b: &str) -> (r: bool)
    ensures
        r == (a@ == b@),
{
    let same = a.unicode_len() == b.unicode_len() && has_prefix(a, b);
    proof {
        if same {
            assert(a@.subrange(0, b@.len() as int) =~= a@);
        }
    }
    same
}

/// Whether `name` is the name of a hidden file: one that begins with a dot.
pub fn is_hidden(name: &str) -> (r: bool)
    ensures
        r == (name@.len() > 0 && name@[0] == '.'),
{
    name.unicode_len() > 0 && name.get_char(0) == '.'
}

/// What a search for projects does with an entry.
#[derive(Clone, Copy, Debug, PartialEq, Eq, Structural)]
pub enum Visit {
    /// Pass over the directory and all that is below it.
    Skip,
    /// Go on.
    Pass,
    /// Ask whether the file is the manifest of a project with a target
    /// directory.
    Probe,
}

/// `path` is `root` or lies below it.
pub open spec fn lies_under(path: Seq<Seq<char>>, root: Seq<Seq<char>>) -> bool {
    root.is_prefix_of(path)
}

/// `path` is one of `roots` or lies below one.
pub open spec fn lies_under_any(path: Seq<Seq<char>>, roots: Seq<Seq<Seq<char>>>) -> bool {
    exists|i: int| 0 <= i < roots.len() && lies_under(path, #[trigger] roots[i])
}

/// What a search does with the entry `name`: a directory is passed over with
/// all below it where it is hidden and hidden ones are not asked for, or
/// where it lies in a target directory that is already known; of what is
/// left, a file named `Cargo.toml` is probed.
pub open spec fn visited(
    name: Seq<char>,
    is_dir: bool,
    include_hidden: bool,
    in_target: bool,
) -> Visit {
    if is_dir && ((!include_hidden && name.len() > 0 && name[0] == '.') || in_target) {
        Visit::Skip
    } else if name == manifest() {
        Visit::Probe
    } else {
        Visit::Pass
    }
}

/// Whether the path with the components `path` is the path with the
/// components `root` or lies below it.
pub fn is_under(path: &Vec<String>, root: &Vec<String>) -> (r: bool)
    ensures
        r == lies_under(texts(path@), texts(root@)),
{
    if root.len() > path.len() {
        return false;
    }
    let ghost p = texts(path@);
    let ghost q = texts(root@);
    let mut i: usize = 0;
    while i < root.len()
        invariant
            i <= root.len() <= path.len(),
            p == texts(path@),
            q == texts(root@),
            forall|k: int| 0 <= k < i ==> p[k] == q[k],
        decreases root.len() - i,
    {
        if path[i] != root[i] {
            proof {
                assert(p[i as int] == path@[i as int]@);
                assert(q[i as int] == root@[i as int]@);
                assert(p.subrange(0, q.len() as int)[i as int] != q[i as int]);
            }
            return false;
        }
        i += 1;
    }
    proof {
        assert(p.subrange(0, q.len() as int) =~= q);
    }
    true
}

/// Whether the path with the components `path` is one of `roots` or lies
/// below one.
pub fn is_under_any(path: &Vec<String>, roots: &Vec<Vec<String>>) -> (r: bool)
    ensures
        r == lies_under_any(texts(path@), roots@.map_values(|root: Vec<String>| texts(root@))),
{
    let ghost all = roots@.map_values(|root: Vec<String>| texts(root@));
    let mut i: usize = 0;
    while i < roots.len()
        invariant
            i <= roots.len(),
            all == roots@.map_values(|root: Vec<String>| texts(root@)),
            forall|k: int| 0 <= k < i ==> !lies_under(texts(path@), #[trigger] all[k]),
        decreases roots.len() - i,
    {
        if is_under(path, &roots[i]) {
            proof {
                assert(lies_under(texts(path@), all[i as int]));
            }
            return true;
        }
        i += 1;
    }
    false
}

/// What a search for projects does with an entry named `name`. `in_target`
/// tells whether the entry lies in a target directory that is already known.
pub fn visit(name: &str, is_dir: bool, include_hidden: bool, in_target: bool) -> (step: Visit)
    ensures
        step == visited(name@, is_dir, include_hidden, in_target),
{
    if is_dir && ((!include_hidden && is_hidden(name)) || in_target) {
        Visit::Skip
    } else if same_text(name, "Cargo.toml") {
        Visit::Probe
    } else {
        Visit::Pass
    }
}

} // verus!
