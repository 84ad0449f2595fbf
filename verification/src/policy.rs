//! The retention policies: which units of a profile are kept.
//!
//! A policy looks at the units under `.fingerprint` and gives the hashes of
//! those to keep. It removes nothing itself.

use vstd::prelude::*;
use vstd::string::StringExecFns;
use std::collections::HashSet;
use crate::artifact::{artifact_hash, hash_from_path_name};
use crate::keep::KeepSet;
use crate::rank::{in_rank_order, ranked, sort_candidates, Candidate, Ranked};
use crate::record::{recorded, Fingerprint};
use crate::size_index::{indexed, size_index, total_disk_space_in_a_profile};
use crate::snapshot::{lemma_profiles_bytes_take, profiles_bytes, Profile, Unit};
use crate::text::texts;

verus! {

broadcast use vstd::std_specs::hash::group_hash_axioms;

/// The age given to a unit with an empty directory: a hundred years, in
/// nanoseconds.
pub const NEVER_USED: u128 = 3_155_760_000_000_000_000;

/// The number of nanoseconds in a day.
pub const DAY: u128 = 86_400_000_000_000;

/// The time that `days` days take, in nanoseconds.
pub fn duration_of_days(days: u64) -> (duration: u128)
    ensures
        duration == days * DAY,
{
    assert(days * DAY <= 0xffff_ffff_ffff_ffff * 86_400_000_000_000) by (nonlinear_arith)
        requires
            days <= 0xffff_ffff_ffff_ffff,
            DAY == 86_400_000_000_000,
    ;
    days as u128 * DAY
}

/// The hashes of the units of `units` that `retain` holds of.
pub open spec fn kept_hashes(units: Seq<Unit>, retain: spec_fn(Unit) -> bool) -> Set<Seq<char>> {
    Set::new(
        |h: Seq<char>|
            exists|i: int|
                0 <= i < units.len() && retain(#[trigger] units[i]) && artifact_hash(
                    units[i].name@,
                ) == Some(h),
    )
}

/// The toolchain policy keeps `unit`: it has no record, or its record names a
/// toolchain in `installed`.
pub open spec fn built_with(unit: Unit, installed: Set<u64>) -> bool {
    match recorded(unit.records@) {
        Some(rustc) => installed.contains(rustc),
        None => true,
    }
}

/// The hashes that the toolchain policy keeps.
pub open spec fn kept_built_with(units: Seq<Unit>, installed: Set<u64>) -> Set<Seq<char>> {
    kept_hashes(units, |unit: Unit| built_with(unit, installed))
}

/// The time since a unit was last used: the least of the times since its
/// entries were accessed, and `NEVER_USED` at most.
pub open spec fn last_used(accessed: Seq<u128>) -> u128
    decreases accessed.len(),
{
    if accessed.len() == 0 {
        NEVER_USED
    } else {
        let rest = last_used(accessed.drop_last());
        if accessed.last() < rest {
            accessed.last()
        } else {
            rest
        }
    }
}

/// The age policy keeps `unit`: it was used less than `keep_duration` ago.
pub open spec fn newer_than(unit: Unit, keep_duration: u128) -> bool {
    last_used(unit.accessed@) < keep_duration
}

/// The hashes that the age policy keeps.
pub open spec fn kept_newer_than(units: Seq<Unit>, keep_duration: u128) -> Set<Seq<char>> {
    kept_hashes(units, |unit: Unit| newer_than(unit, keep_duration))
}

/// `kept_hashes` of no units is empty.
pub proof fn lemma_kept_hashes_empty(retain: spec_fn(Unit) -> bool)
    ensures
        kept_hashes(Seq::empty(), retain) == Set::<Seq<char>>::empty(),
{
    assert(kept_hashes(Seq::empty(), retain) =~= Set::<Seq<char>>::empty());
}

/// `kept_hashes` with one more unit: its hash comes in if it has one and is
/// retained.
pub proof fn lemma_kept_hashes_push(units: Seq<Unit>, unit: Unit, retain: spec_fn(Unit) -> bool)
    ensures
        kept_hashes(units.push(unit), retain) == if retain(unit) && artifact_hash(unit.name@)
            is Some {
            kept_hashes(units, retain).insert(artifact_hash(unit.name@)->0)
        } else {
            kept_hashes(units, retain)
        },
{
    let more = units.push(unit);
    let before = kept_hashes(units, retain);
    let after = kept_hashes(more, retain);
    let comes_in = retain(unit) && artifact_hash(unit.name@) is Some;
    assert forall|h: Seq<char>| before.contains(h) implies after.contains(h) by {
        let i = choose|i: int|
            0 <= i < units.len() && retain(#[trigger] units[i]) && artifact_hash(units[i].name@)
                == Some(h);
        assert(more[i] == units[i]);
    }
    assert forall|h: Seq<char>| after.contains(h) implies before.contains(h) || (comes_in
        && artifact_hash(unit.name@) == Some(h)) by {
        let i = choose|i: int|
            0 <= i < more.len() && retain(#[trigger] more[i]) && artifact_hash(more[i].name@)
                == Some(h);
        if i < units.len() {
            assert(more[i] == units[i]);
        }
    }
    if comes_in {
        assert(more[units.len() as int] == unit);
        assert(after =~= before.insert(artifact_hash(unit.name@)->0));
    } else {
        assert(after =~= before);
    }
}

/// The toolchain policy: keeps the hash of every unit that has no record or
/// whose record names one of `installed_rustc`.
pub fn load_all_fingerprints_built_with(units: &Vec<Unit>, installed_rustc: &HashSet<u64>) -> (keep:
    KeepSet)
    ensures
        keep@ == kept_built_with(units@, installed_rustc@),
{
    let ghost retain = |unit: Unit| built_with(unit, installed_rustc@);
    let mut keep = KeepSet::new();
    proof {
        lemma_kept_hashes_empty(retain);
        assert(units@.take(0) =~= Seq::<Unit>::empty());
    }
    let mut i: usize = 0;
    while i < units.len()
        invariant
            i <= units.len(),
            retain == (|unit: Unit| built_with(unit, installed_rustc@)),
            keep@ == kept_hashes(units@.take(i as int), retain),
        decreases units.len() - i,
    {
        let unit = &units[i];
        proof {
            lemma_kept_hashes_push(units@.take(i as int), *unit, retain);
            assert(units@.take(i as int).push(*unit) =~= units@.take(i + 1));
        }
        let built = match Fingerprint::load(&unit.records) {
            Ok(fingerprint) => installed_rustc.contains(&fingerprint.rustc),
            Err(_) => true,
        };
        if built {
            if let Some(hash) = hash_from_path_name(unit.name.as_str()) {
                keep.insert(String::from_str(hash));
            }
        }
        i += 1;
    }
    proof {
        assert(units@.take(i as int) =~= units@);
    }
    keep
}

/// The time since a unit was last used, from the times since each of its
/// entries was accessed.
pub fn last_used_time(accessed: &Vec<u128>) -> (best: u128)
    ensures
        best == last_used(accessed@),
{
    let mut best: u128 = NEVER_USED;
    let mut i: usize = 0;
    proof {
        assert(accessed@.take(0) =~= Seq::<u128>::empty());
    }
    while i < accessed.len()
        invariant
            i <= accessed.len(),
            best == last_used(accessed@.take(i as int)),
        decreases accessed.len() - i,
    {
        proof {
            assert(accessed@.take(i + 1).drop_last() =~= accessed@.take(i as int));
        }
        if accessed[i] < best {
            best = accessed[i];
        }
        i += 1;
    }
    proof {
        assert(accessed@.take(i as int) =~= accessed@);
    }
    best
}

/// The age policy: keeps the hash of every unit that was used less than
/// `keep_duration` nanoseconds ago.
pub fn load_all_fingerprints_newer_than(units: &Vec<Unit>, keep_duration: u128) -> (keep: KeepSet)
    ensures
        keep@ == kept_newer_than(units@, keep_duration),
{
    let ghost retain = |unit: Unit| newer_than(unit, keep_duration);
    let mut keep = KeepSet::new();
    proof {
        lemma_kept_hashes_empty(retain);
        assert(units@.take(0) =~= Seq::<Unit>::empty());
    }
    let mut i: usize = 0;
    while i < units.len()
        invariant
            i <= units.len(),
            retain == (|unit: Unit| newer_than(unit, keep_duration)),
            keep@ == kept_hashes(units@.take(i as int), retain),
        decreases units.len() - i,
    {
        let unit = &units[i];
        proof {
            lemma_kept_hashes_push(units@.take(i as int), *unit, retain);
            assert(units@.take(i as int).push(*unit) =~= units@.take(i + 1));
        }
        if last_used_time(&unit.accessed) < keep_duration {
            if let Some(hash) = hash_from_path_name(unit.name.as_str()) {
                keep.insert(String::from_str(hash));
            }
        }
        i += 1;
    }
    proof {
        assert(units@.take(i as int) =~= units@);
    }
    keep
}

/// The units of `units` that have a hash, as candidates of the profile at
/// `location` and position `profile`, with sizes from `sizes`.
pub open spec fn unit_candidates(
    units: Seq<Unit>,
    sizes: Map<Seq<char>, u64>,
    location: Seq<Seq<char>>,
    profile: usize,
) -> Seq<Ranked>
    decreases units.len(),
{
    if units.len() == 0 {
        Seq::empty()
    } else {
        let rest = unit_candidates(units.drop_last(), sizes, location, profile);
        match artifact_hash(units.last().name@) {
            Some(hash) => rest.push(
                Ranked {
                    last_used: last_used(units.last().accessed@),
                    size: indexed(sizes, hash) as u64,
                    location,
                    hash,
                    profile,
                },
            ),
            None => rest,
        }
    }
}

/// The candidates of one profile: its units that have a hash, each with the
/// space that the profile's entries with that hash take.
pub open spec fn profile_candidates(profile: Profile, position: usize) -> Seq<Ranked> {
    unit_candidates(
        profile.units@,
        size_index(profile.spec_entries()),
        texts(profile.location@),
        position,
    )
}

/// The candidates of the first `n` of `profiles`.
pub open spec fn candidates_upto(profiles: Seq<Profile>, n: nat) -> Seq<Ranked>
    decreases n,
{
    if n == 0 {
        Seq::empty()
    } else {
        candidates_upto(profiles, (n - 1) as nat) + profile_candidates(
            profiles[n - 1],
            (n - 1) as usize,
        )
    }
}

/// The units of all of `profiles`, from the one used last to the one used
/// longest ago.
pub open spec fn ranking(profiles: Seq<Profile>) -> Seq<Ranked> {
    in_rank_order(candidates_upto(profiles, profiles.len()))
}

/// The space that the `k` last units of `order` take.
pub open spec fn oldest_size(order: Seq<Ranked>, k: nat) -> nat
    decreases k,
{
    if k == 0 || k > order.len() {
        0
    } else {
        oldest_size(order, (k - 1) as nat) + order[order.len() - k].size as nat
    }
}

/// How many units the walk from the end of `order` passes, having passed
/// `k`, before the next one would bring the space freed to `excess`.
pub open spec fn evicted_after(order: Seq<Ranked>, excess: nat, k: nat) -> nat
    decreases order.len() - k,
{
    if k < order.len() && oldest_size(order, k + 1) < excess {
        evicted_after(order, excess, k + 1)
    } else {
        k
    }
}

/// How many units at the end of `order` the size policy gives up: as many of
/// those used longest ago as take less than `excess` together.
pub open spec fn evicted(order: Seq<Ranked>, excess: nat) -> nat {
    evicted_after(order, excess, 0)
}

/// The hashes that the size policy keeps in the profile at `position`: those
/// of its units that are not given up.
pub open spec fn kept_until_fits(order: Seq<Ranked>, excess: nat, position: usize) -> Set<
    Seq<char>,
> {
    Set::new(
        |h: Seq<char>|
            exists|j: int|
                0 <= j < order.len() - evicted(order, excess) && (#[trigger] order[j]).profile
                    == position && order[j].hash == h,
    )
}

/// The keep sets of the size policy, one for each profile.
pub open spec fn keeps_until_fits(profiles: Seq<Profile>, excess: nat) -> Seq<Set<Seq<char>>> {
    Seq::new(
        profiles.len(),
        |i: int| kept_until_fits(ranking(profiles), excess, i as usize),
    )
}

/// The units of a profile used last first, each with its hash and the time
/// since it was last used.
pub open spec fn by_time(units: Seq<Unit>) -> Seq<(u128, Seq<char>)> {
    in_rank_order(unit_candidates(units, Map::empty(), Seq::empty(), 0)).map_values(
        |c: Ranked| (c.last_used, c.hash),
    )
}

/// The units that have a hash, from the one used last to the one used
/// longest ago, those used at the same time in the order of their hashes.
pub fn load_all_fingerprints_by_time(units: &Vec<Unit>) -> (keep: Vec<(u128, String)>)
    ensures
        keep@.map_values(|pair: (u128, String)| (pair.0, pair.1@)) == by_time(units@),
{
    let nowhere: Vec<String> = Vec::new();
    let ghost none = Map::<Seq<char>, u64>::empty();
    let ghost place = Seq::<Seq<char>>::empty();
    let mut candidates: Vec<Candidate> = Vec::new();
    let mut i: usize = 0;
    proof {
        assert(texts(nowhere@) =~= place);
        assert(units@.take(0) =~= Seq::<Unit>::empty());
        assert(ranked(candidates@) =~= Seq::<Ranked>::empty());
    }
    while i < units.len()
        invariant
            i <= units.len(),
            texts(nowhere@) == place,
            none == Map::<Seq<char>, u64>::empty(),
            ranked(candidates@) == unit_candidates(units@.take(i as int), none, place, 0),
        decreases units.len() - i,
    {
        let unit = &units[i];
        proof {
            assert(units@.take(i + 1).drop_last() =~= units@.take(i as int));
            assert(units@.take(i + 1).last() == units@[i as int]);
        }
        if let Some(hash) = hash_from_path_name(unit.name.as_str()) {
            let ghost before = ranked(candidates@);
            let candidate = Candidate {
                last_used: last_used_time(&unit.accessed),
                size: 0,
                location: &nowhere,
                hash: String::from_str(hash),
                profile: 0,
            };
            candidates.push(candidate);
            proof {
                assert(ranked(candidates@) =~= before.push(candidate@));
            }
        }
        i += 1;
    }
    proof {
        assert(units@.take(i as int) =~= units@);
    }
    let mut sorted = sort_candidates(candidates);
    let ghost order = ranked(sorted@);
    let ghost pairs = |c: Ranked| (c.last_used, c.hash);
    let mut keep: Vec<(u128, String)> = Vec::new();
    let mut j: usize = 0;
    proof {
        assert(keep@.map_values(|pair: (u128, String)| (pair.0, pair.1@)) =~= order.take(
            0,
        ).map_values(pairs));
    }
    while j < sorted.len()
        invariant
            j <= sorted.len(),
            order == ranked(sorted@),
            pairs == (|c: Ranked| (c.last_used, c.hash)),
            keep@.map_values(|pair: (u128, String)| (pair.0, pair.1@)) == order.take(
                j as int,
            ).map_values(pairs),
        decreases sorted.len() - j,
    {
        let ghost before = keep@.map_values(|pair: (u128, String)| (pair.0, pair.1@));
        let pair = (sorted[j].last_used, sorted[j].hash.clone());
        keep.push(pair);
        proof {
            assert(keep@.map_values(|pair: (u128, String)| (pair.0, pair.1@)) =~= before.push(
                (pair.0, pair.1@),
            ));
            assert(order.take(j + 1).map_values(pairs) =~= order.take(j as int).map_values(
                pairs,
            ).push(pairs(order[j as int])));
        }
        j += 1;
    }
    proof {
        assert(order.take(j as int) =~= order);
    }
    keep
}

/// The units of all profiles as candidates, each with the time since it was
/// last used and the space it takes in its profile.
pub fn rank_candidates<'a>(profiles: &'a Vec<Profile>) -> (candidates: Vec<Candidate<'a>>)
    requires
        profiles_bytes(profiles@) <= u64::MAX,
    ensures
        ranked(candidates@) == candidates_upto(profiles@, profiles@.len()),
{
    let mut candidates: Vec<Candidate<'a>> = Vec::new();
    let mut i: usize = 0;
    proof {
        assert(ranked(candidates@) =~= Seq::<Ranked>::empty());
    }
    while i < profiles.len()
        invariant
            i <= profiles.len(),
            profiles_bytes(profiles@) <= u64::MAX,
            ranked(candidates@) == candidates_upto(profiles@, i as nat),
        decreases profiles.len() - i,
    {
        let profile = &profiles[i];
        proof {
            lemma_profiles_bytes_take(profiles@, i as int);
            lemma_profiles_bytes_take(profiles@, i + 1);
        }
        let sizes = total_disk_space_in_a_profile(profile);
        let ghost done = ranked(candidates@);
        let ghost place = texts(profile.location@);
        let mut j: usize = 0;
        proof {
            assert(profile.units@.take(0) =~= Seq::<Unit>::empty());
            assert(done + Seq::<Ranked>::empty() =~= done);
        }
        while j < profile.units.len()
            invariant
                j <= profile.units.len(),
                i < profiles.len(),
                profile == &profiles@[i as int],
                place == texts(profile.location@),
                sizes@ == size_index(profile.spec_entries()),
                ranked(candidates@) == done + unit_candidates(
                    profile.units@.take(j as int),
                    sizes@,
                    place,
                    i,
                ),
            decreases profile.units.len() - j,
        {
            let unit = &profile.units[j];
            proof {
                assert(profile.units@.take(j + 1).drop_last() =~= profile.units@.take(j as int));
                assert(profile.units@.take(j + 1).last() == profile.units@[j as int]);
            }
            if let Some(hash) = hash_from_path_name(unit.name.as_str()) {
                let ghost before = ranked(candidates@);
                let size = match sizes.get(hash) {
                    Some(size) => size,
                    None => 0,
                };
                let candidate = Candidate {
                    last_used: last_used_time(&unit.accessed),
                    size,
                    location: &profile.location,
                    hash: String::from_str(hash),
                    profile: i,
                };
                candidates.push(candidate);
                proof {
                    assert(ranked(candidates@) =~= before.push(candidate@));
                    assert(before.push(candidate@) =~= done + unit_candidates(
                        profile.units@.take(j as int),
                        sizes@,
                        place,
                        i,
                    ).push(candidate@));
                }
            }
            j += 1;
        }
        proof {
            assert(profile.units@.take(j as int) =~= profile.units@);
        }
        i += 1;
    }
    candidates
}

/// How many of the units at the end of `order` the size policy gives up to
/// free `excess` bytes.
pub fn count_evicted<'a>(order: &Vec<Candidate<'a>>, excess: u64) -> (k: usize)
    ensures
        k == evicted(ranked(order@), excess as nat),
        k <= order.len(),
{
    let ghost ranks = ranked(order@);
    let mut removed: u64 = 0;
    let mut k: usize = 0;
    while k < order.len() && order[order.len() - 1 - k].size < excess - removed
        invariant
            k <= order.len(),
            ranks == ranked(order@),
            removed == oldest_size(ranks, k as nat),
            removed <= excess,
            evicted(ranks, excess as nat) == evicted_after(ranks, excess as nat, k as nat),
        decreases order.len() - k,
    {
        proof {
            assert(ranks[ranks.len() - (k + 1)].size == order@[order.len() - 1 - k].size);
        }
        removed = removed + order[order.len() - 1 - k].size;
        k += 1;
    }
    proof {
        if k < order.len() {
            assert(ranks[ranks.len() - (k + 1)].size == order@[order.len() - 1 - k].size);
        }
    }
    k
}

/// The keep set of the profile at `position`: the hashes of its units among
/// the first `kept` of `order`.
pub fn keep_of_profile<'a>(order: &Vec<Candidate<'a>>, kept: usize, position: usize) -> (keep:
    KeepSet)
    requires
        kept <= order.len(),
    ensures
        keep@ == Set::new(
            |h: Seq<char>|
                exists|j: int|
                    0 <= j < kept && (#[trigger] ranked(order@)[j]).profile == position && ranked(
                        order@,
                    )[j].hash == h,
        ),
{
    let ghost ranks = ranked(order@);
    let mut keep = KeepSet::new();
    let mut j: usize = 0;
    proof {
        assert(keep@ =~= Set::new(
            |h: Seq<char>|
                exists|n: int|
                    0 <= n < 0 && (#[trigger] ranks[n]).profile == position && ranks[n].hash == h,
        ));
    }
    while j < kept
        invariant
            j <= kept <= order.len(),
            ranks == ranked(order@),
            keep@ == Set::new(
                |h: Seq<char>|
                    exists|n: int|
                        0 <= n < j && (#[trigger] ranks[n]).profile == position && ranks[n].hash
                            == h,
            ),
        decreases kept - j,
    {
        let ghost before = keep@;
        if order[j].profile == position {
            keep.insert(order[j].hash.clone());
        }
        proof {
            let after = Set::new(
                |h: Seq<char>|
                    exists|n: int|
                        0 <= n < j + 1 && (#[trigger] ranks[n]).profile == position
                            && ranks[n].hash == h,
            );
            assert(ranks[j as int] == order@[j as int]@);
            assert forall|h: Seq<char>| keep@.contains(h) == after.contains(h) by {
                if before.contains(h) {
                    let n = choose|n: int|
                        0 <= n < j && (#[trigger] ranks[n]).profile == position && ranks[n].hash
                            == h;
                    assert(0 <= n < j + 1 && ranks[n].profile == position && ranks[n].hash == h);
                }
                if after.contains(h) {
                    let n = choose|n: int|
                        0 <= n < j + 1 && (#[trigger] ranks[n]).profile == position
                            && ranks[n].hash == h;
                    if n < j {
                        assert(before.contains(h));
                    }
                }
                if ranks[j as int].profile == position && ranks[j as int].hash == h {
                    assert(after.contains(h));
                }
            }
            assert(keep@ =~= after);
        }
        j += 1;
    }
    keep
}

} // verus!
