//! What was read from a build tree, as plain values.
//!
//! A profile is a directory (such as `debug` or `release`) that holds a
//! `.fingerprint` directory. Beside it the tracked directories `build`,
//! `deps` and, in old trees, `native` hold the artifacts, as does the profile
//! directory itself.

use vstd::prelude::*;
use crate::artifact::{artifact_hash, hash_from_path_name};

verus! {

/// What a directory entry is.
#[derive(Clone, Copy, Debug, PartialEq, Eq, Structural)]
pub enum EntryKind {
    /// A regular file.
    File,
    /// A directory.
    Dir,
    /// Neither of the two.
    Other,
}

/// One entry of a tracked directory.
#[derive(Clone, Debug)]
pub struct Entry {
    /// Where the entry is: the path by which it can be removed.
    pub path: String,
    /// The entry's file name.
    pub name: String,
    /// Whether it is a file or a directory.
    pub kind: EntryKind,
    /// Its own length in bytes.
    pub len: u64,
    /// For a directory: the lengths of all regular files below it. They
    /// count only where the entry belongs to a unit.
    pub files: Vec<u64>,
}

/// One candidate for a unit's metadata record: a file in the unit's directory.
#[derive(Clone, Debug)]
pub struct RecordFile {
    /// The file's name.
    pub name: String,
    /// The toolchain identity that the file records, when its contents are a
    /// record.
    pub rustc: Option<u64>,
}

/// One unit: a directory under `.fingerprint`.
#[derive(Clone, Debug)]
pub struct Unit {
    /// The directory's name.
    pub name: String,
    /// The files in it, in the order they were listed.
    pub records: Vec<RecordFile>,
    /// For each entry in it, the time since it was last accessed, in
    /// nanoseconds.
    pub accessed: Vec<u128>,
}

/// One build profile.
#[derive(Clone, Debug)]
pub struct Profile {
    /// The components of the path of the profile's `.fingerprint`
    /// directory.
    pub location: Vec<String>,
    /// The directories under `.fingerprint`.
    pub units: Vec<Unit>,
    /// The entries of `.fingerprint`.
    pub fingerprint: Vec<Entry>,
    /// The entries of `build`.
    pub build: Vec<Entry>,
    /// The entries of `deps`.
    pub deps: Vec<Entry>,
    /// The entries of `native`, where that directory exists.
    pub native: Option<Vec<Entry>>,
    /// The entries of the profile directory itself.
    pub root: Vec<Entry>,
}

/// The sum of `lengths`.
pub open spec fn sum(lengths: Seq<u64>) -> nat
    decreases lengths.len(),
{
    if lengths.len() == 0 {
        0
    } else {
        sum(lengths.drop_last()) + lengths.last() as nat
    }
}

impl Entry {
    /// The hash in the entry's name.
    pub open spec fn spec_hash(&self) -> Option<Seq<char>> {
        artifact_hash(self.name@)
    }

    /// The space the entry takes: a file its own length, a directory the
    /// lengths of the regular files below it.
    pub open spec fn spec_size(&self) -> nat {
        match self.kind {
            EntryKind::File => self.len as nat,
            EntryKind::Dir => sum(self.files@),
            EntryKind::Other => 0,
        }
    }

    /// The entry belongs to the unit `hash`.
    pub open spec fn belongs_to(&self, hash: Seq<char>) -> bool {
        self.spec_hash() == Some(hash)
    }

    /// The space the entry takes if it belongs to a unit, else 0.
    pub open spec fn tracked_size(&self) -> nat {
        if self.spec_hash() is Some {
            self.spec_size()
        } else {
            0
        }
    }
}

/// The space taken by the entries of `entries` that belong to a unit.
pub open spec fn listing_bytes(entries: Seq<Entry>) -> nat
    decreases entries.len(),
{
    if entries.len() == 0 {
        0
    } else {
        listing_bytes(entries.drop_last()) + entries.last().tracked_size()
    }
}

impl Profile {
    /// The entries of `native`, none where the directory does not exist.
    pub open spec fn spec_native(&self) -> Seq<Entry> {
        match self.native {
            Some(entries) => entries@,
            None => Seq::empty(),
        }
    }

    /// All tracked entries, in the order a sweep visits them.
    pub open spec fn spec_entries(&self) -> Seq<Entry> {
        self.build@ + self.deps@ + self.spec_native() + self.root@ + self.fingerprint@
    }

    /// The space taken by the entries that belong to a unit.
    pub open spec fn spec_bytes(&self) -> nat {
        listing_bytes(self.spec_entries())
    }
}

/// The space taken by the tracked entries of all of `profiles`.
pub open spec fn profiles_bytes(profiles: Seq<Profile>) -> nat
    decreases profiles.len(),
{
    if profiles.len() == 0 {
        0
    } else {
        profiles_bytes(profiles.drop_last()) + profiles.last().spec_bytes()
    }
}

/// `sum` of a prefix is at most the whole sum.
pub proof fn lemma_sum_take(lengths: Seq<u64>, k: int)
    requires
        0 <= k <= lengths.len(),
    ensures
        sum(lengths.take(k)) <= sum(lengths),
    decreases lengths.len() - k,
{
    if k < lengths.len() {
        lemma_sum_take(lengths, k + 1);
        assert(lengths.take(k + 1).drop_last() =~= lengths.take(k));
    } else {
        assert(lengths.take(k) =~= lengths);
    }
}

/// `listing_bytes` of two listings put together.
pub proof fn lemma_listing_bytes_add(a: Seq<Entry>, b: Seq<Entry>)
    ensures
        listing_bytes(a + b) == listing_bytes(a) + listing_bytes(b),
    decreases b.len(),
{
    if b.len() == 0 {
        assert(a + b =~= a);
    } else {
        assert((a + b).drop_last() =~= a + b.drop_last());
        lemma_listing_bytes_add(a, b.drop_last());
    }
}

/// The number of bytes in all regular files that a walk found: the sum of
/// their lengths.
pub fn total_disk_space_dir(lengths: &Vec<u64>) -> (total: u64)
    requires
        sum(lengths@) <= u64::MAX,
    ensures
        total == sum(lengths@),
{
    let mut total: u64 = 0;
    let mut i: usize = 0;
    while i < lengths.len()
        invariant
            i <= lengths.len(),
            total == sum(lengths@.take(i as int)),
            sum(lengths@) <= u64::MAX,
        decreases lengths.len() - i,
    {
        proof {
            lemma_sum_take(lengths@, i + 1);
            assert(lengths@.take(i + 1).drop_last() =~= lengths@.take(i as int));
        }
        total = total + lengths[i];
        i += 1;
    }
    proof {
        assert(lengths@.take(i as int) =~= lengths@);
    }
    total
}

/// The space taken by the entries of `entries` that belong to a unit, where
/// it fits in 64 bits.
pub fn listing_size(entries: &Vec<Entry>) -> (size: Option<u64>)
    ensures
        size == if listing_bytes(entries@) <= u64::MAX {
            Some(listing_bytes(entries@) as u64)
        } else {
            None
        },
{
    let mut total: u64 = 0;
    let mut i: usize = 0;
    while i < entries.len()
        invariant
            i <= entries.len(),
            total == listing_bytes(entries@.take(i as int)),
        decreases entries.len() - i,
    {
        let entry = &entries[i];
        let ghost seen = entries@.take(i as int);
        let ghost next = entries@.take(i + 1);
        proof {
            assert(next.drop_last() =~= seen);
            assert(next.last() == entries@[i as int]);
            assert(entries@ =~= next + entries@.skip(i + 1));
            lemma_listing_bytes_add(next, entries@.skip(i + 1));
        }
        if hash_from_path_name(entry.name.as_str()).is_some() {
            let size = match entry.kind {
                EntryKind::File => Some(entry.len),
                EntryKind::Dir => length_sum(&entry.files),
                EntryKind::Other => Some(0),
            };
            let more = match size {
                Some(size) => total.checked_add(size),
                None => None,
            };
            match more {
                Some(more) => {
                    total = more;
                },
                None => {
                    return None;
                },
            }
        }
        i += 1;
    }
    proof {
        assert(entries@.take(i as int) =~= entries@);
    }
    Some(total)
}

/// The sum of `lengths`, where it fits in 64 bits.
pub fn length_sum(lengths: &Vec<u64>) -> (total: Option<u64>)
    ensures
        total == if sum(lengths@) <= u64::MAX {
            Some(sum(lengths@) as u64)
        } else {
            None
        },
{
    let mut total: u64 = 0;
    let mut i: usize = 0;
    while i < lengths.len()
        invariant
            i <= lengths.len(),
            total == sum(lengths@.take(i as int)),
        decreases lengths.len() - i,
    {
        proof {
            lemma_sum_take(lengths@, i + 1);
            assert(lengths@.take(i + 1).drop_last() =~= lengths@.take(i as int));
        }
        match total.checked_add(lengths[i]) {
            Some(more) => {
                total = more;
            },
            None => {
                return None;
            },
        }
        i += 1;
    }
    proof {
        assert(lengths@.take(i as int) =~= lengths@);
    }
    Some(total)
}

/// The sum of two sizes, where both are there and the sum fits in 64 bits.
fn add_sizes(a: Option<u64>, b: Option<u64>) -> (total: Option<u64>)
    ensures
        total == if a is Some && b is Some && a->0 + b->0 <= u64::MAX {
            Some((a->0 + b->0) as u64)
        } else {
            None
        },
{
    match (a, b) {
        (Some(a), Some(b)) => a.checked_add(b),
        _ => None,
    }
}

impl Profile {
    /// The space taken by the entries that belong to a unit, where it fits
    /// in 64 bits.
    pub fn size(&self) -> (size: Option<u64>)
        ensures
            size == if self.spec_bytes() <= u64::MAX {
                Some(self.spec_bytes() as u64)
            } else {
                None
            },
    {
        let ghost b = self.build@;
        let ghost d = self.deps@;
        let ghost n = self.spec_native();
        let ghost r = self.root@;
        let ghost f = self.fingerprint@;
        proof {
            lemma_listing_bytes_add(b, d);
            lemma_listing_bytes_add(b + d, n);
            lemma_listing_bytes_add(b + d + n, r);
            lemma_listing_bytes_add(b + d + n + r, f);
        }
        let native = match &self.native {
            Some(entries) => listing_size(entries),
            None => Some(0),
        };
        let size = add_sizes(listing_size(&self.build), listing_size(&self.deps));
        let size = add_sizes(size, native);
        let size = add_sizes(size, listing_size(&self.root));
        add_sizes(size, listing_size(&self.fingerprint))
    }
}

/// Whether the tracked entries of all of `profiles` take no more than fits
/// in 64 bits.
pub fn profiles_fit(profiles: &Vec<Profile>) -> (fit: bool)
    ensures
        fit == (profiles_bytes(profiles@) <= u64::MAX),
{
    let mut total: u64 = 0;
    let mut i: usize = 0;
    while i < profiles.len()
        invariant
            i <= profiles.len(),
            total == profiles_bytes(profiles@.take(i as int)),
        decreases profiles.len() - i,
    {
        proof {
            assert(profiles@.take(i + 1).drop_last() =~= profiles@.take(i as int));
            assert(profiles@.take(i + 1).last() == profiles@[i as int]);
            lemma_profiles_bytes_take(profiles@, i + 1);
        }
        let more = match profiles[i].size() {
            Some(size) => total.checked_add(size),
            None => None,
        };
        match more {
            Some(more) => {
                total = more;
            },
            None => {
                return false;
            },
        }
        i += 1;
    }
    proof {
        assert(profiles@.take(i as int) =~= profiles@);
    }
    true
}

/// The first `n` profiles take no more than all of them, and with the next
/// one that much more.
pub proof fn lemma_profiles_bytes_take(profiles: Seq<Profile>, n: int)
    requires
        0 <= n <= profiles.len(),
    ensures
        profiles_bytes(profiles.take(n)) <= profiles_bytes(profiles),
        n < profiles.len() ==> profiles_bytes(profiles.take(n + 1)) == profiles_bytes(
            profiles.take(n),
        ) + profiles[n].spec_bytes(),
    decreases profiles.len() - n,
{
    if n < profiles.len() {
        lemma_profiles_bytes_take(profiles, n + 1);
        assert(profiles.take(n + 1).drop_last() =~= profiles.take(n));
    } else {
        assert(profiles.take(n) =~= profiles);
    }
}

} // verus!
