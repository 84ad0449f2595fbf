//! How much space each unit of a profile takes, over all tracked directories.

use vstd::prelude::*;
use vstd::hash_map::StringHashMap;
use vstd::string::StringExecFns;
use crate::artifact::hash_from_path_name;
use crate::snapshot::{lemma_listing_bytes_add, listing_bytes, Entry, Profile};
use crate::sweep::entry_size;

verus! {

/// For each hash, the space that the entries with that hash take.
pub struct SizeIndex {
    sizes: StringHashMap<u64>,
}

impl View for SizeIndex {
    type V = Map<Seq<char>, u64>;

    closed spec fn view(&self) -> Map<Seq<char>, u64> {
        self.sizes@
    }
}

/// The space that the entries of `entries` with the hash `hash` take.
pub open spec fn size_of(entries: Seq<Entry>, hash: Seq<char>) -> nat
    decreases entries.len(),
{
    if entries.len() == 0 {
        0
    } else {
        size_of(entries.drop_last(), hash) + if entries.last().belongs_to(hash) {
            entries.last().spec_size()
        } else {
            0
        }
    }
}

/// Some entry of `entries` has the hash `hash`.
pub open spec fn appears(entries: Seq<Entry>, hash: Seq<char>) -> bool {
    exists|i: int| 0 <= i < entries.len() && (#[trigger] entries[i]).belongs_to(hash)
}

/// What `index` holds for `hash`, 0 where it holds nothing.
pub open spec fn indexed(index: Map<Seq<char>, u64>, hash: Seq<char>) -> nat {
    if index.contains_key(hash) {
        index[hash] as nat
    } else {
        0
    }
}

/// `index` with the sizes of `entries` added.
pub open spec fn with_listing(index: Map<Seq<char>, u64>, entries: Seq<Entry>) -> Map<
    Seq<char>,
    u64,
> {
    Map::new(
        |h: Seq<char>| index.contains_key(h) || appears(entries, h),
        |h: Seq<char>| (indexed(index, h) + size_of(entries, h)) as u64,
    )
}

/// The index of `entries`: every hash that appears, with the space its
/// entries take.
pub open spec fn size_index(entries: Seq<Entry>) -> Map<Seq<char>, u64> {
    Map::new(|h: Seq<char>| appears(entries, h), |h: Seq<char>| size_of(entries, h) as u64)
}

/// `size_of` of two listings put together.
pub proof fn lemma_size_of_add(a: Seq<Entry>, b: Seq<Entry>, hash: Seq<char>)
    ensures
        size_of(a + b, hash) == size_of(a, hash) + size_of(b, hash),
    decreases b.len(),
{
    if b.len() == 0 {
        assert(a + b =~= a);
    } else {
        assert((a + b).drop_last() =~= a + b.drop_last());
        lemma_size_of_add(a, b.drop_last(), hash);
    }
}

/// The entries with one hash take no more than all tracked entries.
pub proof fn lemma_size_of_le_bytes(entries: Seq<Entry>, hash: Seq<char>)
    ensures
        size_of(entries, hash) <= listing_bytes(entries),
    decreases entries.len(),
{
    if entries.len() > 0 {
        lemma_size_of_le_bytes(entries.drop_last(), hash);
    }
}

/// A hash that does not appear takes no space.
pub proof fn lemma_size_of_absent(entries: Seq<Entry>, hash: Seq<char>)
    requires
        !appears(entries, hash),
    ensures
        size_of(entries, hash) == 0,
    decreases entries.len(),
{
    if entries.len() > 0 {
        let rest = entries.drop_last();
        assert(entries[entries.len() - 1] == entries.last());
        assert forall|i: int| 0 <= i < rest.len() implies !(#[trigger] rest[i]).belongs_to(
            hash,
        ) by {
            assert(rest[i] == entries[i]);
        }
        lemma_size_of_absent(rest, hash);
    }
}

/// `appears` in two listings put together.
pub proof fn lemma_appears_add(a: Seq<Entry>, b: Seq<Entry>, hash: Seq<char>)
    ensures
        appears(a + b, hash) <==> appears(a, hash) || appears(b, hash),
{
    if appears(a, hash) {
        let i = choose|i: int| 0 <= i < a.len() && (#[trigger] a[i]).belongs_to(hash);
        assert((a + b)[i] == a[i]);
    }
    if appears(b, hash) {
        let i = choose|i: int| 0 <= i < b.len() && (#[trigger] b[i]).belongs_to(hash);
        assert((a + b)[a.len() + i] == b[i]);
    }
    if appears(a + b, hash) {
        let i = choose|i: int| 0 <= i < (a + b).len() && (#[trigger] (a + b)[i]).belongs_to(hash);
        if i < a.len() {
            assert(a[i] == (a + b)[i]);
        } else {
            assert(b[i - a.len()] == (a + b)[i]);
        }
    }
}

impl SizeIndex {
    /// The empty index.
    pub fn new() -> (index: SizeIndex)
        ensures
            index@ == Map::<Seq<char>, u64>::empty(),
    {
        SizeIndex { sizes: StringHashMap::new() }
    }

    /// The space recorded for `hash`.
    pub fn get(&self, hash: &str) -> (size: Option<u64>)
        ensures
            size == if self@.contains_key(hash@) {
                Some(self@[hash@])
            } else {
                None
            },
    {
        match self.sizes.get(hash) {
            Some(size) => Some(*size),
            None => None,
        }
    }

    /// The number of hashes in the index.
    pub fn len(&self) -> (n: usize)
        ensures
            n == self@.len(),
    {
        self.sizes.len()
    }

    /// Adds `size` to what is recorded for `hash`.
    fn add(&mut self, hash: &str, size: u64)
        requires
            indexed(old(self)@, hash@) + size <= u64::MAX,
        ensures
            final(self)@ == old(self)@.insert(hash@, (indexed(old(self)@, hash@) + size) as u64),
    {
        let before = match self.sizes.get(hash) {
            Some(size) => *size,
            None => 0,
        };
        self.sizes.insert(String::from_str(hash), before + size);
    }
}

/// Adds the sizes of the entries of one tracked directory to `disk_space`,
/// each under the hash in its name: a file counts with its own length, a
/// directory with the lengths of the regular files below it, anything else
/// with nothing. Entries without a hash are passed over.
pub fn total_disk_space_by_hash_in_a_dir(dir: &Vec<Entry>, disk_space: &mut SizeIndex)
    requires
        forall|h: Seq<char>| indexed(old(disk_space)@, h) + size_of(dir@, h) <= u64::MAX,
    ensures
        final(disk_space)@ == with_listing(old(disk_space)@, dir@),
{
    let ghost start = disk_space@;
    let mut i: usize = 0;
    proof {
        assert(with_listing(start, dir@.take(0)) =~= start);
    }
    while i < dir.len()
        invariant
            i <= dir.len(),
            forall|h: Seq<char>| indexed(start, h) + size_of(dir@, h) <= u64::MAX,
            disk_space@ == with_listing(start, dir@.take(i as int)),
        decreases dir.len() - i,
    {
        let entry = &dir[i];
        let ghost seen = dir@.take(i as int);
        let ghost next = dir@.take(i + 1);
        let ghost before = disk_space@;
        proof {
            assert(next.drop_last() =~= seen);
            assert(next.last() == dir@[i as int]);
            assert(next =~= seen + seq![dir@[i as int]]);
            assert(dir@ =~= next + dir@.skip(i + 1));
        }
        if let Some(hash) = hash_from_path_name(entry.name.as_str()) {
            proof {
                lemma_size_of_add(next, dir@.skip(i + 1), hash@);
                if !appears(seen, hash@) {
                    lemma_size_of_absent(seen, hash@);
                }
                assert(next.last().belongs_to(hash@));
                assert(size_of(next, hash@) == size_of(seen, hash@) + entry.spec_size());
            }
            let size = entry_size(entry);
            disk_space.add(hash, size);
            proof {
                let after = with_listing(start, next);
                assert forall|h: Seq<char>| disk_space@.contains_key(h) == after.contains_key(h)
                    && (after.contains_key(h) ==> disk_space@[h] == after[h]) by {
                    lemma_appears_add(seen, seq![dir@[i as int]], h);
                    assert(appears(seq![dir@[i as int]], h) <==> dir@[i as int].belongs_to(h)) by {
                        if dir@[i as int].belongs_to(h) {
                            assert(seq![dir@[i as int]][0].belongs_to(h));
                        }
                    }
                    if !appears(seen, h) {
                        lemma_size_of_absent(seen, h);
                    }
                }
                assert(disk_space@ =~= after);
            }
        } else {
            proof {
                let after = with_listing(start, next);
                assert forall|h: Seq<char>| before.contains_key(h) == after.contains_key(h) && (
                after.contains_key(h) ==> before[h] == after[h]) by {
                    lemma_appears_add(seen, seq![dir@[i as int]], h);
                    if appears(seq![dir@[i as int]], h) {
                        let k = choose|k: int|
                            0 <= k < 1 && (#[trigger] seq![dir@[i as int]][k]).belongs_to(h);
                        assert(seq![dir@[i as int]][k] == dir@[i as int]);
                    }
                }
                assert(before =~= after);
            }
        }
        i += 1;
    }
    proof {
        assert(dir@.take(i as int) =~= dir@);
    }
}

/// Adding `next` to the index of `seen` gives the index of both, and stays
/// within bounds where the entries of any one hash do.
pub proof fn lemma_index_extend(seen: Seq<Entry>, next: Seq<Entry>)
    requires
        listing_bytes(seen + next) <= u64::MAX,
    ensures
        forall|h: Seq<char>| indexed(size_index(seen), h) + size_of(next, h) <= u64::MAX,
        with_listing(size_index(seen), next) == size_index(seen + next),
{
    assert forall|h: Seq<char>|
        indexed(size_index(seen), h) == size_of(seen, h) && size_of(seen + next, h) == size_of(
            seen,
            h,
        ) + size_of(next, h) && size_of(seen + next, h) <= u64::MAX && (appears(seen + next, h)
            <==> appears(seen, h) || appears(next, h)) by {
        if !appears(seen, h) {
            lemma_size_of_absent(seen, h);
        }
        lemma_size_of_add(seen, next, h);
        lemma_size_of_le_bytes(seen + next, h);
        lemma_appears_add(seen, next, h);
    }
    assert(with_listing(size_index(seen), next) =~= size_index(seen + next));
}

/// Builds the size index of a profile, over `build`, `deps`, `native` where
/// it exists, the profile directory itself and `.fingerprint`.
pub fn total_disk_space_in_a_profile(profile: &Profile) -> (total_disk_space: SizeIndex)
    requires
        profile.spec_bytes() <= u64::MAX,
    ensures
        total_disk_space@ == size_index(profile.spec_entries()),
{
    let ghost b = profile.build@;
    let ghost d = profile.deps@;
    let ghost n = profile.spec_native();
    let ghost r = profile.root@;
    let ghost f = profile.fingerprint@;
    let ghost none = Seq::<Entry>::empty();
    proof {
        lemma_listing_bytes_add(b + d + n + r, f);
        lemma_listing_bytes_add(b + d + n, r);
        lemma_listing_bytes_add(b + d, n);
        lemma_listing_bytes_add(b, d);
        assert(none + b =~= b);
        lemma_index_extend(none, b);
        lemma_index_extend(b, d);
        lemma_index_extend(b + d, n);
        lemma_index_extend(b + d + n, r);
        lemma_index_extend(b + d + n + r, f);
        assert(size_index(none) =~= Map::<Seq<char>, u64>::empty());
    }
    let mut total_disk_space = SizeIndex::new();
    total_disk_space_by_hash_in_a_dir(&profile.build, &mut total_disk_space);
    total_disk_space_by_hash_in_a_dir(&profile.deps, &mut total_disk_space);
    if let Some(native) = &profile.native {
        total_disk_space_by_hash_in_a_dir(native, &mut total_disk_space);
    } else {
        proof {
            assert(b + d + n =~= b + d);
        }
    }
    total_disk_space_by_hash_in_a_dir(&profile.root, &mut total_disk_space);
    total_disk_space_by_hash_in_a_dir(&profile.fingerprint, &mut total_disk_space);
    total_disk_space
}

} // verus!
