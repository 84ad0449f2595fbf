//! Applying a keep set: what a sweep removes and how much space that frees.

use vstd::prelude::*;
use std::collections::HashSet;
use crate::artifact::hash_from_path_name;
use crate::keep::KeepSet;
use crate::policy::{
    count_evicted, keep_of_profile, keeps_until_fits, kept_built_with, kept_newer_than,
    load_all_fingerprints_built_with, load_all_fingerprints_newer_than, rank_candidates, ranking,
};
use crate::rank::{ranked, sort_candidates};
use crate::snapshot::{
    lemma_listing_bytes_add, lemma_profiles_bytes_take, listing_bytes, profiles_bytes, sum,
    total_disk_space_dir, Entry, EntryKind, Profile,
};

verus! {

/// One file or directory that a sweep removes.
#[derive(Clone, Debug)]
pub struct Removal {
    /// The entry's path.
    pub path: String,
    /// Whether to remove a file or a directory with all that is below it.
    pub kind: EntryKind,
}

/// A removal, in specifications.
pub struct Removed {
    pub path: Seq<char>,
    pub kind: EntryKind,
}

impl View for Removal {
    type V = Removed;

    open spec fn view(&self) -> Removed {
        Removed { path: self.path@, kind: self.kind }
    }
}

/// What a sweep does.
#[derive(Debug)]
pub struct Sweep {
    /// The space the removed entries take, in bytes.
    pub freed: u64,
    /// The entries to remove, in the order the sweep met them.
    pub removals: Vec<Removal>,
    /// Whether the removals are only to be reported.
    pub dry_run: bool,
}

/// A sweep, in specifications.
pub struct Swept {
    pub freed: nat,
    pub removals: Seq<Removed>,
    pub dry_run: bool,
}

impl View for Sweep {
    type V = Swept;

    open spec fn view(&self) -> Swept {
        Swept {
            freed: self.freed as nat,
            removals: self.removals@.map_values(|r: Removal| r@),
            dry_run: self.dry_run,
        }
    }
}

/// A sweep with `keep` removes `e`: `e` is a file or a directory whose name
/// holds a hash that `keep` lacks.
pub open spec fn is_swept(e: Entry, keep: Set<Seq<char>>) -> bool {
    e.kind != EntryKind::Other && match e.spec_hash() {
        Some(h) => !keep.contains(h),
        None => false,
    }
}

/// The space that the swept entries of `entries` take.
pub open spec fn freed_in(entries: Seq<Entry>, keep: Set<Seq<char>>) -> nat
    decreases entries.len(),
{
    if entries.len() == 0 {
        0
    } else {
        freed_in(entries.drop_last(), keep) + if is_swept(entries.last(), keep) {
            entries.last().spec_size()
        } else {
            0
        }
    }
}

/// The swept entries of `entries`, in order.
pub open spec fn removed_in(entries: Seq<Entry>, keep: Set<Seq<char>>) -> Seq<Removed>
    decreases entries.len(),
{
    if entries.len() == 0 {
        Seq::empty()
    } else if is_swept(entries.last(), keep) {
        removed_in(entries.drop_last(), keep).push(
            Removed { path: entries.last().path@, kind: entries.last().kind },
        )
    } else {
        removed_in(entries.drop_last(), keep)
    }
}

/// The sweep of `entries` with `keep`.
pub open spec fn swept(entries: Seq<Entry>, keep: Set<Seq<char>>, dry_run: bool) -> Swept {
    Swept { freed: freed_in(entries, keep), removals: removed_in(entries, keep), dry_run }
}

/// A sweep frees no more than the tracked entries take.
pub proof fn lemma_freed_le_bytes(entries: Seq<Entry>, keep: Set<Seq<char>>)
    ensures
        freed_in(entries, keep) <= listing_bytes(entries),
    decreases entries.len(),
{
    if entries.len() > 0 {
        lemma_freed_le_bytes(entries.drop_last(), keep);
    }
}

/// `listing_bytes` of a prefix is at most that of the whole listing.
pub proof fn lemma_listing_bytes_take(entries: Seq<Entry>, k: int)
    requires
        0 <= k <= entries.len(),
    ensures
        listing_bytes(entries.take(k)) <= listing_bytes(entries),
{
    assert(entries =~= entries.take(k) + entries.skip(k));
    lemma_listing_bytes_add(entries.take(k), entries.skip(k));
}

/// `freed_in` of two listings put together.
pub proof fn lemma_freed_add(a: Seq<Entry>, b: Seq<Entry>, keep: Set<Seq<char>>)
    ensures
        freed_in(a + b, keep) == freed_in(a, keep) + freed_in(b, keep),
    decreases b.len(),
{
    if b.len() == 0 {
        assert(a + b =~= a);
    } else {
        assert((a + b).drop_last() =~= a + b.drop_last());
        lemma_freed_add(a, b.drop_last(), keep);
    }
}

/// `removed_in` of two listings put together.
pub proof fn lemma_removed_add(a: Seq<Entry>, b: Seq<Entry>, keep: Set<Seq<char>>)
    ensures
        removed_in(a + b, keep) == removed_in(a, keep) + removed_in(b, keep),
    decreases b.len(),
{
    if b.len() == 0 {
        assert(a + b =~= a);
        assert(removed_in(a, keep) + removed_in(b, keep) =~= removed_in(a, keep));
    } else {
        assert((a + b).drop_last() =~= a + b.drop_last());
        lemma_removed_add(a, b.drop_last(), keep);
        if is_swept(b.last(), keep) {
            let r = Removed { path: b.last().path@, kind: b.last().kind };
            assert((removed_in(a, keep) + removed_in(b.drop_last(), keep)).push(r) =~= removed_in(
                a,
                keep,
            ) + removed_in(b.drop_last(), keep).push(r));
        }
    }
}

/// The space an entry takes.
pub fn entry_size(entry: &Entry) -> (size: u64)
    requires
        entry.spec_size() <= u64::MAX,
    ensures
        size == entry.spec_size(),
{
    match entry.kind {
        EntryKind::File => entry.len,
        EntryKind::Dir => total_disk_space_dir(&entry.files),
        EntryKind::Other => 0,
    }
}

/// Sweeps one tracked directory: every file or directory in it whose name
/// holds a hash that `keep` lacks is to be removed, and its size counts as
/// freed. Entries without a hash in their name are left alone.
pub fn remove_not_matching_in_a_dir(dir: &Vec<Entry>, keep: &KeepSet, dry_run: bool) -> (sweep:
    Sweep)
    requires
        listing_bytes(dir@) <= u64::MAX,
    ensures
        sweep@ == swept(dir@, keep@, dry_run),
{
    let mut total_disk_space: u64 = 0;
    let mut removals: Vec<Removal> = Vec::new();
    let mut i: usize = 0;
    while i < dir.len()
        invariant
            i <= dir.len(),
            listing_bytes(dir@) <= u64::MAX,
            total_disk_space == freed_in(dir@.take(i as int), keep@),
            removals@.map_values(|r: Removal| r@) == removed_in(dir@.take(i as int), keep@),
        decreases dir.len() - i,
    {
        let entry = &dir[i];
        proof {
            assert(dir@.take(i + 1).drop_last() =~= dir@.take(i as int));
            assert(dir@.take(i + 1).last() == dir@[i as int]);
            lemma_listing_bytes_take(dir@, i + 1);
            lemma_freed_le_bytes(dir@.take(i + 1), keep@);
        }
        if let Some(hash) = hash_from_path_name(entry.name.as_str()) {
            if !keep.contains(hash) {
                match entry.kind {
                    EntryKind::Other => {},
                    _ => {
                        let ghost before = removals@.map_values(|r: Removal| r@);
                        total_disk_space = total_disk_space + entry_size(entry);
                        let removal = Removal {
                            path: entry.path.clone(),
                            kind: entry.kind,
                        };
                        removals.push(removal);
                        proof {
                            assert(removals@.map_values(|r: Removal| r@) =~= before.push(
                                removal@,
                            ));
                        }
                    },
                }
            }
        }
        i += 1;
    }
    proof {
        assert(dir@.take(i as int) =~= dir@);
    }
    Sweep { freed: total_disk_space, removals, dry_run }
}

/// The sweeps of the first `n` of `profiles`, each with its own keep set, one
/// after the other.
pub open spec fn freed_upto(profiles: Seq<Profile>, keeps: Seq<Set<Seq<char>>>, n: nat) -> nat
    decreases n,
{
    if n == 0 {
        0
    } else {
        freed_upto(profiles, keeps, (n - 1) as nat) + freed_in(
            profiles[n - 1].spec_entries(),
            keeps[n - 1],
        )
    }
}

/// What the sweeps of the first `n` of `profiles` remove, in order.
pub open spec fn removed_upto(profiles: Seq<Profile>, keeps: Seq<Set<Seq<char>>>, n: nat) -> Seq<
    Removed,
>
    decreases n,
{
    if n == 0 {
        Seq::empty()
    } else {
        removed_upto(profiles, keeps, (n - 1) as nat) + removed_in(
            profiles[n - 1].spec_entries(),
            keeps[n - 1],
        )
    }
}

/// The sweep of all of `profiles`, the profile at each position with the keep
/// set at that position.
pub open spec fn swept_all(profiles: Seq<Profile>, keeps: Seq<Set<Seq<char>>>, dry_run: bool)
    -> Swept {
    Swept {
        freed: freed_upto(profiles, keeps, profiles.len()),
        removals: removed_upto(profiles, keeps, profiles.len()),
        dry_run,
    }
}

/// The keep sets of the toolchain policy, one for each profile.
pub open spec fn keeps_built_with(profiles: Seq<Profile>, installed: Set<u64>) -> Seq<
    Set<Seq<char>>,
> {
    Seq::new(profiles.len(), |i: int| kept_built_with(profiles[i].units@, installed))
}

/// The keep sets of the age policy, one for each profile.
pub open spec fn keeps_newer_than(profiles: Seq<Profile>, keep_duration: u128) -> Seq<
    Set<Seq<char>>,
> {
    Seq::new(profiles.len(), |i: int| kept_newer_than(profiles[i].units@, keep_duration))
}

/// Sweeps of profiles free no more than their tracked entries take.
pub proof fn lemma_freed_upto_le_bytes(
    profiles: Seq<Profile>,
    keeps: Seq<Set<Seq<char>>>,
    n: nat,
)
    requires
        n <= profiles.len(),
    ensures
        freed_upto(profiles, keeps, n) <= profiles_bytes(profiles.take(n as int)),
    decreases n,
{
    if n > 0 {
        lemma_freed_upto_le_bytes(profiles, keeps, (n - 1) as nat);
        lemma_profiles_bytes_take(profiles, n - 1);
        lemma_freed_le_bytes(profiles[n - 1].spec_entries(), keeps[n - 1]);
    }
}

/// Adds the sweep `part` to `total`.
fn absorb(total: &mut Sweep, part: Sweep)
    requires
        old(total).freed + part.freed <= u64::MAX,
    ensures
        final(total)@ == (Swept {
            freed: old(total)@.freed + part@.freed,
            removals: old(total)@.removals + part@.removals,
            dry_run: old(total).dry_run,
        }),
{
    let mut more = part.removals;
    total.freed = total.freed + part.freed;
    total.removals.append(&mut more);
    proof {
        assert(total.removals@.map_values(|r: Removal| r@) =~= old(total)@.removals
            + part@.removals);
    }
}

/// Sweeps one profile: its tracked directories `build`, `deps`, `native`
/// where it exists, the profile directory itself and `.fingerprint`, in this
/// order.
pub fn remove_not_built_with_in_a_profile(profile: &Profile, keep: &KeepSet, dry_run: bool) -> (sweep:
    Sweep)
    requires
        profile.spec_bytes() <= u64::MAX,
    ensures
        sweep@ == swept(profile.spec_entries(), keep@, dry_run),
{
    let ghost b = profile.build@;
    let ghost d = profile.deps@;
    let ghost n = profile.spec_native();
    let ghost r = profile.root@;
    let ghost f = profile.fingerprint@;
    proof {
        lemma_listing_bytes_add(b, d);
        lemma_listing_bytes_add(b + d, n);
        lemma_listing_bytes_add(b + d + n, r);
        lemma_listing_bytes_add(b + d + n + r, f);
        lemma_freed_add(b, d, keep@);
        lemma_freed_add(b + d, n, keep@);
        lemma_freed_add(b + d + n, r, keep@);
        lemma_freed_add(b + d + n + r, f, keep@);
        lemma_removed_add(b, d, keep@);
        lemma_removed_add(b + d, n, keep@);
        lemma_removed_add(b + d + n, r, keep@);
        lemma_removed_add(b + d + n + r, f, keep@);
        lemma_freed_le_bytes(b, keep@);
        lemma_freed_le_bytes(d, keep@);
        lemma_freed_le_bytes(n, keep@);
        lemma_freed_le_bytes(r, keep@);
        lemma_freed_le_bytes(f, keep@);
    }
    let mut sweep = remove_not_matching_in_a_dir(&profile.build, keep, dry_run);
    absorb(&mut sweep, remove_not_matching_in_a_dir(&profile.deps, keep, dry_run));
    if let Some(native) = &profile.native {
        absorb(&mut sweep, remove_not_matching_in_a_dir(native, keep, dry_run));
    } else {
        proof {
            assert(n.len() == 0);
            assert(removed_in(n, keep@).len() == 0);
            assert(sweep@.removals + removed_in(n, keep@) =~= sweep@.removals);
        }
    }
    absorb(&mut sweep, remove_not_matching_in_a_dir(&profile.root, keep, dry_run));
    absorb(&mut sweep, remove_not_matching_in_a_dir(&profile.fingerprint, keep, dry_run));
    sweep
}

/// Sweeps every profile with the toolchain policy: a unit is kept when it has
/// no record or was built by one of `hashed_rust_version_to_keep`.
pub fn remove_not_built_with(
    profiles: &Vec<Profile>,
    hashed_rust_version_to_keep: &HashSet<u64>,
    dry_run: bool,
) -> (sweep: Sweep)
    requires
        profiles_bytes(profiles@) <= u64::MAX,
    ensures
        sweep@ == swept_all(
            profiles@,
            keeps_built_with(profiles@, hashed_rust_version_to_keep@),
            dry_run,
        ),
{
    let ghost keeps = keeps_built_with(profiles@, hashed_rust_version_to_keep@);
    let mut sweep = Sweep { freed: 0, removals: Vec::new(), dry_run };
    let mut i: usize = 0;
    proof {
        assert(sweep@.removals =~= Seq::<Removed>::empty());
    }
    while i < profiles.len()
        invariant
            i <= profiles.len(),
            profiles_bytes(profiles@) <= u64::MAX,
            keeps == keeps_built_with(profiles@, hashed_rust_version_to_keep@),
            sweep@ == (Swept {
                freed: freed_upto(profiles@, keeps, i as nat),
                removals: removed_upto(profiles@, keeps, i as nat),
                dry_run,
            }),
        decreases profiles.len() - i,
    {
        let profile = &profiles[i];
        proof {
            lemma_freed_upto_le_bytes(profiles@, keeps, (i + 1) as nat);
            lemma_profiles_bytes_take(profiles@, i as int);
            lemma_profiles_bytes_take(profiles@, i + 1);
        }
        let keep = load_all_fingerprints_built_with(&profile.units, hashed_rust_version_to_keep);
        absorb(&mut sweep, remove_not_built_with_in_a_profile(profile, &keep, dry_run));
        i += 1;
    }
    sweep
}

/// Sweeps every profile with the age policy: a unit is kept when it was used
/// less than `keep_duration` nanoseconds ago.
pub fn remove_older_than(profiles: &Vec<Profile>, keep_duration: u128, dry_run: bool) -> (sweep:
    Sweep)
    requires
        profiles_bytes(profiles@) <= u64::MAX,
    ensures
        sweep@ == swept_all(profiles@, keeps_newer_than(profiles@, keep_duration), dry_run),
{
    let ghost keeps = keeps_newer_than(profiles@, keep_duration);
    let mut sweep = Sweep { freed: 0, removals: Vec::new(), dry_run };
    let mut i: usize = 0;
    proof {
        assert(sweep@.removals =~= Seq::<Removed>::empty());
    }
    while i < profiles.len()
        invariant
            i <= profiles.len(),
            profiles_bytes(profiles@) <= u64::MAX,
            keeps == keeps_newer_than(profiles@, keep_duration),
            sweep@ == (Swept {
                freed: freed_upto(profiles@, keeps, i as nat),
                removals: removed_upto(profiles@, keeps, i as nat),
                dry_run,
            }),
        decreases profiles.len() - i,
    {
        let profile = &profiles[i];
        proof {
            lemma_freed_upto_le_bytes(profiles@, keeps, (i + 1) as nat);
            lemma_profiles_bytes_take(profiles@, i as int);
            lemma_profiles_bytes_take(profiles@, i + 1);
        }
        let keep = load_all_fingerprints_newer_than(&profile.units, keep_duration);
        absorb(&mut sweep, remove_not_built_with_in_a_profile(profile, &keep, dry_run));
        i += 1;
    }
    sweep
}

/// What the size policy does to a tree whose regular files have the lengths
/// `files`: nothing where they take `target_size` or less, else the sweep of
/// every profile with the keep set the policy gives it.
pub open spec fn swept_until_fits(
    files: Seq<u64>,
    profiles: Seq<Profile>,
    target_size: u64,
    dry_run: bool,
) -> Swept {
    if sum(files) <= target_size {
        Swept { freed: 0, removals: Seq::empty(), dry_run }
    } else {
        swept_all(
            profiles,
            keeps_until_fits(profiles, (sum(files) - target_size) as nat),
            dry_run,
        )
    }
}

/// By how much a tree whose regular files have the lengths `files` is larger
/// than `target_size`; `None` where it is not.
pub fn size_to_remove(files: &Vec<u64>, target_size: u64) -> (excess: Option<u64>)
    requires
        sum(files@) <= u64::MAX,
    ensures
        excess == if sum(files@) <= target_size {
            None
        } else {
            Some((sum(files@) - target_size) as u64)
        },
{
    let starting_size = total_disk_space_dir(files);
    if starting_size <= target_size {
        None
    } else {
        Some(starting_size - target_size)
    }
}

/// Sweeps every profile with the size policy. `files` holds the lengths of
/// all regular files of the tree. Where they take more than `target_size`,
/// the units of all profiles are ranked by the time since they were last
/// used, and those used longest ago are given up one by one while what they
/// take stays below the excess; all others are kept.
pub fn remove_older_until_fits(
    files: &Vec<u64>,
    profiles: &Vec<Profile>,
    target_size: u64,
    dry_run: bool,
) -> (sweep: Sweep)
    requires
        sum(files@) <= u64::MAX,
        profiles_bytes(profiles@) <= u64::MAX,
    ensures
        sweep@ == swept_until_fits(files@, profiles@, target_size, dry_run),
{
    let mut sweep = Sweep { freed: 0, removals: Vec::new(), dry_run };
    proof {
        assert(sweep@.removals =~= Seq::<Removed>::empty());
    }
    let size_to_remove = match size_to_remove(files, target_size) {
        Some(excess) => excess,
        None => {
            return sweep;
        },
    };
    let order = sort_candidates(rank_candidates(profiles));
    let kept = order.len() - count_evicted(&order, size_to_remove);
    let ghost keeps = keeps_until_fits(profiles@, size_to_remove as nat);
    let mut i: usize = 0;
    while i < profiles.len()
        invariant
            i <= profiles.len(),
            profiles_bytes(profiles@) <= u64::MAX,
            ranked(order@) == ranking(profiles@),
            kept <= order.len(),
            kept == order.len() - crate::policy::evicted(ranked(order@), size_to_remove as nat),
            keeps == keeps_until_fits(profiles@, size_to_remove as nat),
            sweep@ == (Swept {
                freed: freed_upto(profiles@, keeps, i as nat),
                removals: removed_upto(profiles@, keeps, i as nat),
                dry_run,
            }),
        decreases profiles.len() - i,
    {
        let profile = &profiles[i];
        proof {
            lemma_freed_upto_le_bytes(profiles@, keeps, (i + 1) as nat);
            lemma_profiles_bytes_take(profiles@, i as int);
            lemma_profiles_bytes_take(profiles@, i + 1);
        }
        let keep = keep_of_profile(&order, kept, i);
        proof {
            assert(keep@ =~= keeps[i as int]);
        }
        absorb(&mut sweep, remove_not_built_with_in_a_profile(profile, &keep, dry_run));
        i += 1;
    }
    sweep
}

} // verus!
