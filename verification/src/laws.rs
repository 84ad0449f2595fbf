//! What holds of the library as a whole.

use vstd::prelude::*;
use crate::artifact::{all_hex, artifact_hash, is_hex_digit, stem, HASH_LEN};
use crate::policy::{built_with, kept_built_with, kept_newer_than};
use crate::record::recorded;
use crate::snapshot::{sum, Entry, EntryKind, Profile, Unit};
use crate::sweep::{freed_in, is_swept, removed_in, swept_all, swept_until_fits};
use crate::toolchain::{
    first_failure, hashed, identities, lemma_identities_hold_zero, looked_up, RustcRun,
    ToolchainFailure,
};

verus! {

/// The text after the last dash of `s`; all of `s` where it has none.
pub open spec fn after_last_dash(s: Seq<char>) -> Seq<char>
    decreases s.len(),
{
    if s.len() == 0 || s.last() == '-' {
        Seq::empty()
    } else {
        after_last_dash(s.drop_last()).push(s.last())
    }
}

/// What `after_last_dash` gives: the end of `s`, without a dash in it, and
/// with a dash before it unless it is all of `s`.
pub proof fn lemma_after_last_dash(s: Seq<char>)
    ensures
        after_last_dash(s).len() <= s.len(),
        after_last_dash(s) == s.skip(s.len() - after_last_dash(s).len()),
        forall|i: int| 0 <= i < after_last_dash(s).len() ==> after_last_dash(s)[i] != '-',
        after_last_dash(s).len() < s.len() ==> s[s.len() - after_last_dash(s).len() - 1] == '-',
    decreases s.len(),
{
    if s.len() == 0 || s.last() == '-' {
        assert(after_last_dash(s) =~= s.skip(s.len() as int));
    } else {
        let rest = s.drop_last();
        lemma_after_last_dash(rest);
        let tail = after_last_dash(rest);
        assert(tail.push(s.last()) =~= s.skip(s.len() - tail.len() - 1));
    }
}

/// The hash of a name is what follows the last dash of its stem: the part of
/// the name before its first dot. A name has a hash if and only if what
/// follows the last dash of the stem is sixteen hex digits and the stem is
/// longer than that by more than the dash.
pub proof fn hash_follows_the_last_dash(name: Seq<char>)
    ensures
        artifact_hash(name) == if stem(name).len() > after_last_dash(stem(name)).len() + 1
            && after_last_dash(stem(name)).len() == HASH_LEN && all_hex(
            after_last_dash(stem(name)),
        ) {
            Some(after_last_dash(stem(name)))
        } else {
            None
        },
{
    let st = stem(name);
    let n = st.len() as int;
    let tail = after_last_dash(st);
    lemma_after_last_dash(st);
    if artifact_hash(name) is Some {
        let hash = st.skip(n - HASH_LEN);
        assert(st[n - HASH_LEN - 1] == '-');
        if tail.len() > HASH_LEN {
            assert(tail[tail.len() - HASH_LEN - 1] == st[n - HASH_LEN - 1]);
        }
        if tail.len() < HASH_LEN {
            assert(st[n - tail.len() - 1] == hash[HASH_LEN - tail.len() - 1]);
            assert(is_hex_digit(hash[HASH_LEN - tail.len() - 1]));
        }
    }
}

/// A name has a hash only where sixteen hex digits end its stem, a dash
/// parts them from what stands before, and something does stand before.
pub proof fn hash_only_after_a_name_and_a_dash(name: Seq<char>)
    ensures
        artifact_hash(name) is Some ==> exists|before: Seq<char>|
            before.len() > 0 && #[trigger] (before + seq!['-'] + artifact_hash(name)->0)
                == stem(name),
        artifact_hash(name) is Some ==> artifact_hash(name)->0.len() == HASH_LEN && all_hex(
            artifact_hash(name)->0,
        ),
{
    if artifact_hash(name) is Some {
        let st = stem(name);
        let n = st.len() as int;
        let before = st.take(n - HASH_LEN - 1);
        assert(before + seq!['-'] + artifact_hash(name)->0 =~= st);
    }
}

/// The first failure among runs and one more: that among the runs, or else
/// that of the one more.
pub proof fn lemma_first_failure_push(runs: Seq<RustcRun>, run: RustcRun)
    ensures
        first_failure(runs.push(run)) == if first_failure(runs) is Some {
            first_failure(runs)
        } else {
            run.spec_failure()
        },
    decreases runs.len(),
{
    let more = runs.push(run);
    if runs.len() == 0 {
        assert(more.drop_first() =~= runs);
    } else {
        assert(more[0] == runs[0]);
        assert(more.drop_first() =~= runs.drop_first().push(run));
        lemma_first_failure_push(runs.drop_first(), run);
    }
}

/// Runs taken one by one give what a lookup over all of them gives: a lookup
/// with one more run fails as the lookup without it does, or else as that
/// run does, or else gives the identities of that run more.
pub proof fn lookup_goes_run_by_run(runs: Seq<RustcRun>, run: RustcRun)
    ensures
        looked_up(runs.push(run)) == match looked_up(runs) {
            Err(failure) => Err::<Set<u64>, ToolchainFailure>(failure),
            Ok(found) => match run.spec_failure() {
                Some(failure) => Err(failure),
                None => Ok(found + run.spec_identities()),
            },
        },
{
    lemma_first_failure_push(runs, run);
    assert(runs.push(run).drop_last() =~= runs);
}

/// Whatever toolchains are asked for and whatever `rustc` printed: where
/// identities come out, 0 is among them.
pub proof fn looked_up_identities_hold_zero(
    rust_versions: Option<Seq<Seq<char>>>,
    detected: Option<Seq<Seq<char>>>,
    runs: Seq<RustcRun>,
)
    ensures
        hashed(rust_versions, detected, runs) is Ok ==> hashed(
            rust_versions,
            detected,
            runs,
        )->Ok_0.contains(0),
{
    lemma_identities_hold_zero(runs);
}

/// With the identities that a lookup gives, whatever they are, the toolchain
/// policy keeps every unit whose record names the toolchain 0.
pub proof fn zero_identity_is_kept(
    rust_versions: Option<Seq<Seq<char>>>,
    detected: Option<Seq<Seq<char>>>,
    runs: Seq<RustcRun>,
    units: Seq<Unit>,
    i: int,
)
    requires
        hashed(rust_versions, detected, runs) is Ok,
        0 <= i < units.len(),
        recorded(units[i].records@) == Some(0u64),
        artifact_hash(units[i].name@) is Some,
    ensures
        kept_built_with(units, hashed(rust_versions, detected, runs)->Ok_0).contains(
            artifact_hash(units[i].name@)->0,
        ),
{
    lemma_identities_hold_zero(runs);
    assert(built_with(units[i], hashed(rust_versions, detected, runs)->Ok_0));
}

/// The toolchain policy keeps every unit without a record, whatever the
/// identities.
pub proof fn unit_without_record_is_kept(units: Seq<Unit>, installed: Set<u64>, i: int)
    requires
        0 <= i < units.len(),
        recorded(units[i].records@) is None,
        artifact_hash(units[i].name@) is Some,
    ensures
        kept_built_with(units, installed).contains(artifact_hash(units[i].name@)->0),
{
    assert(built_with(units[i], installed));
}

/// The age policy with no time at all keeps nothing.
pub proof fn no_time_keeps_nothing(units: Seq<Unit>)
    ensures
        kept_newer_than(units, 0) == Set::<Seq<char>>::empty(),
{
    assert(kept_newer_than(units, 0) =~= Set::<Seq<char>>::empty());
}

/// Where the tree takes no more than the target, the size policy frees
/// nothing and removes nothing.
pub proof fn within_target_nothing_goes(
    files: Seq<u64>,
    profiles: Seq<Profile>,
    target_size: u64,
    dry_run: bool,
)
    requires
        sum(files) <= target_size,
    ensures
        swept_until_fits(files, profiles, target_size, dry_run).freed == 0,
        swept_until_fits(files, profiles, target_size, dry_run).removals.len() == 0,
{
}

/// A dry run and a real run on one tree free the same and name the same
/// entries, under each policy.
pub proof fn dry_run_frees_the_same(
    files: Seq<u64>,
    profiles: Seq<Profile>,
    keeps: Seq<Set<Seq<char>>>,
    target_size: u64,
)
    ensures
        swept_all(profiles, keeps, true).freed == swept_all(profiles, keeps, false).freed,
        swept_all(profiles, keeps, true).removals == swept_all(profiles, keeps, false).removals,
        swept_until_fits(files, profiles, target_size, true).freed == swept_until_fits(
            files,
            profiles,
            target_size,
            false,
        ).freed,
        swept_until_fits(files, profiles, target_size, true).removals == swept_until_fits(
            files,
            profiles,
            target_size,
            false,
        ).removals,
{
}

/// What a sweep removes is a file or a directory.
pub proof fn removals_are_files_or_directories(entries: Seq<Entry>, keep: Set<Seq<char>>, i: int)
    requires
        0 <= i < removed_in(entries, keep).len(),
    ensures
        removed_in(entries, keep)[i].kind != EntryKind::Other,
    decreases entries.len(),
{
    if entries.len() > 0 {
        let rest = removed_in(entries.drop_last(), keep);
        if i < rest.len() {
            removals_are_files_or_directories(entries.drop_last(), keep, i);
        }
    }
}

/// What a sweep leaves: the entries that it does not remove.
pub open spec fn left_by_sweep(entries: Seq<Entry>, keep: Set<Seq<char>>) -> Seq<Entry>
    decreases entries.len(),
{
    if entries.len() == 0 {
        Seq::empty()
    } else if is_swept(entries.last(), keep) {
        left_by_sweep(entries.drop_last(), keep)
    } else {
        left_by_sweep(entries.drop_last(), keep).push(entries.last())
    }
}

/// A sweep of what a sweep with the same keep set has left frees nothing
/// and removes nothing.
pub proof fn second_sweep_frees_nothing(entries: Seq<Entry>, keep: Set<Seq<char>>)
    ensures
        freed_in(left_by_sweep(entries, keep), keep) == 0,
        removed_in(left_by_sweep(entries, keep), keep).len() == 0,
    decreases entries.len(),
{
    if entries.len() > 0 {
        second_sweep_frees_nothing(entries.drop_last(), keep);
        if !is_swept(entries.last(), keep) {
            let left = left_by_sweep(entries.drop_last(), keep);
            assert(left.push(entries.last()).drop_last() =~= left);
        }
    }
}

/// A sweep leaves alone every entry without a hash in its name and every
/// entry whose hash is kept: where all entries are such, it frees nothing
/// and removes nothing.
pub proof fn kept_and_unnamed_entries_stay(entries: Seq<Entry>, keep: Set<Seq<char>>)
    requires
        forall|i: int|
            0 <= i < entries.len() ==> match (#[trigger] entries[i]).spec_hash() {
                Some(hash) => keep.contains(hash),
                None => true,
            },
    ensures
        freed_in(entries, keep) == 0,
        removed_in(entries, keep).len() == 0,
    decreases entries.len(),
{
    if entries.len() > 0 {
        let rest = entries.drop_last();
        assert forall|i: int| 0 <= i < rest.len() implies match (#[trigger] rest[i]).spec_hash() {
            Some(hash) => keep.contains(hash),
            None => true,
        } by {
            assert(rest[i] == entries[i]);
        }
        kept_and_unnamed_entries_stay(rest, keep);
        assert(entries[entries.len() - 1] == entries.last());
    }
}

} // verus!
