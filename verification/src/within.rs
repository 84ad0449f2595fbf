//! How near the size policy comes to its target.

use vstd::prelude::*;
use crate::artifact::artifact_hash;
use crate::policy::{
    candidates_upto, evicted, evicted_after, keeps_until_fits, kept_until_fits, oldest_size,
    profile_candidates, ranking, unit_candidates,
};
use crate::rank::{rank_order, Ranked};
use crate::size_index::{indexed, lemma_size_of_le_bytes, size_index, size_of};
use crate::snapshot::{
    lemma_profiles_bytes_take, profiles_bytes, sum, Entry, EntryKind, Profile, Unit,
};
use crate::sweep::{freed_in, freed_upto, is_swept, swept_until_fits};

verus! {

/// No two units of `units` have one hash.
pub open spec fn distinct_hashes(units: Seq<Unit>) -> bool {
    forall|i: int, j: int|
        0 <= i < j < units.len() && artifact_hash(units[i].name@) is Some ==> artifact_hash(
            units[i].name@,
        ) != artifact_hash(units[j].name@)
}

/// In each profile, no two units have one hash.
pub open spec fn profiles_distinct(profiles: Seq<Profile>) -> bool {
    forall|p: int| 0 <= p < profiles.len() ==> distinct_hashes(#[trigger] profiles[p].units@)
}

/// The space that those of `s` take of which `gone` holds.
pub open spec fn given_up_size(s: Seq<Ranked>, gone: spec_fn(Ranked) -> bool) -> nat
    decreases s.len(),
{
    if s.len() == 0 {
        0
    } else {
        given_up_size(s.drop_last(), gone) + if gone(s.last()) {
            s.last().size as nat
        } else {
            0
        }
    }
}

/// The space that the entries `entries` hold for those of `units` of whose
/// hash `gone` holds.
pub open spec fn given_up_in(
    units: Seq<Unit>,
    gone: spec_fn(Seq<char>) -> bool,
    entries: Seq<Entry>,
) -> nat
    decreases units.len(),
{
    if units.len() == 0 {
        0
    } else {
        given_up_in(units.drop_last(), gone, entries) + match artifact_hash(units.last().name@) {
            Some(hash) => if gone(hash) {
                size_of(entries, hash)
            } else {
                0
            },
            None => 0,
        }
    }
}

/// No two of `s` are of one profile and one hash.
pub open spec fn keyed(s: Seq<Ranked>) -> bool {
    forall|i: int, j: int|
        0 <= i < j < s.len() ==> !((#[trigger] s[i]).profile == (#[trigger] s[j]).profile
            && s[i].hash == s[j].hash)
}

proof fn lemma_given_up_size_add(a: Seq<Ranked>, b: Seq<Ranked>, gone: spec_fn(Ranked) -> bool)
    ensures
        given_up_size(a + b, gone) == given_up_size(a, gone) + given_up_size(b, gone),
    decreases b.len(),
{
    if b.len() == 0 {
        assert(a + b =~= a);
    } else {
        assert((a + b).drop_last() =~= a + b.drop_last());
        lemma_given_up_size_add(a, b.drop_last(), gone);
    }
}

proof fn lemma_given_up_size_remove(s: Seq<Ranked>, i: int, gone: spec_fn(Ranked) -> bool)
    requires
        0 <= i < s.len(),
    ensures
        given_up_size(s, gone) == given_up_size(s.remove(i), gone) + if gone(s[i]) {
            s[i].size as nat
        } else {
            0
        },
{
    let head = s.take(i);
    let one = seq![s[i]];
    let tail = s.skip(i + 1);
    assert(s =~= head + one + tail);
    assert(s.remove(i) =~= head + tail);
    lemma_given_up_size_add(head + one, tail, gone);
    lemma_given_up_size_add(head, one, gone);
    lemma_given_up_size_add(head, tail, gone);
    assert(one.drop_last() =~= Seq::<Ranked>::empty());
    assert(given_up_size(one.drop_last(), gone) == 0);
    assert(one.last() == s[i]);
    assert(given_up_size(one, gone) == if gone(s[i]) {
        s[i].size as nat
    } else {
        0
    });
}

/// Sequences that hold the same elements give up the same space.
proof fn lemma_given_up_size_same(x: Seq<Ranked>, y: Seq<Ranked>, gone: spec_fn(Ranked) -> bool)
    requires
        x.to_multiset() == y.to_multiset(),
    ensures
        given_up_size(x, gone) == given_up_size(y, gone),
    decreases x.len(),
{
    broadcast use vstd::multiset::group_multiset_axioms;
    broadcast use vstd::seq_lib::group_to_multiset_ensures;

    vstd::seq_lib::to_multiset_len(x);
    vstd::seq_lib::to_multiset_len(y);
    if x.len() > 0 {
        let v = x.last();
        let rest = x.drop_last();
        assert(x =~= rest.push(v));
        assert(x.to_multiset().count(v) > 0);
        assert(y.contains(v));
        let i = choose|i: int| 0 <= i < y.len() && y[i] == v;
        assert(rest.to_multiset() =~= x.to_multiset().remove(v));
        assert(y.remove(i).to_multiset() =~= y.to_multiset().remove(v));
        lemma_given_up_size_same(rest, y.remove(i), gone);
        lemma_given_up_size_remove(y, i, gone);
    }
}

/// The last `k` of `order` take no more than all of which `gone` holds,
/// where it holds of them.
proof fn lemma_oldest_given_up(order: Seq<Ranked>, k: nat, gone: spec_fn(Ranked) -> bool)
    requires
        k <= order.len(),
        forall|j: int| order.len() - k <= j < order.len() ==> gone(#[trigger] order[j]),
    ensures
        oldest_size(order, k) <= given_up_size(order, gone),
{
    lemma_oldest_is_given_up(order, k, gone);
    assert(order =~= order.take(order.len() - k) + order.skip(order.len() - k));
    lemma_given_up_size_add(order.take(order.len() - k), order.skip(order.len() - k), gone);
}

proof fn lemma_oldest_is_given_up(order: Seq<Ranked>, k: nat, gone: spec_fn(Ranked) -> bool)
    requires
        k <= order.len(),
        forall|j: int| order.len() - k <= j < order.len() ==> gone(#[trigger] order[j]),
    ensures
        oldest_size(order, k) == given_up_size(order.skip(order.len() - k), gone),
    decreases k,
{
    let n = order.len() as int;
    if k > 0 {
        lemma_oldest_is_given_up(order, (k - 1) as nat, gone);
        let one = seq![order[n - k]];
        assert(order.skip(n - k) =~= one + order.skip(n - k + 1));
        lemma_given_up_size_add(one, order.skip(n - k + 1), gone);
        assert(one.drop_last() =~= Seq::<Ranked>::empty());
        assert(given_up_size(one.drop_last(), gone) == 0);
        assert(one.last() == order[n - k]);
        assert(given_up_size(one, gone) == order[n - k].size);
    }
}

/// Where the walk ends before the end of `order`, the units it passed and
/// the next one take `excess` or more; and where what it had passed took
/// less than `excess`, so does what it passed in the end.
pub proof fn lemma_walk_ends(order: Seq<Ranked>, excess: nat, k: nat)
    requires
        k <= order.len(),
    ensures
        k <= evicted_after(order, excess, k) <= order.len(),
        evicted_after(order, excess, k) < order.len() ==> oldest_size(
            order,
            evicted_after(order, excess, k) + 1,
        ) >= excess,
        oldest_size(order, k) < excess ==> oldest_size(order, evicted_after(order, excess, k))
            < excess,
    decreases order.len() - k,
{
    if k < order.len() && oldest_size(order, k + 1) < excess {
        lemma_walk_ends(order, excess, k + 1);
    }
}

/// The size policy gives up as many of the units used longest ago as take
/// less than the excess together: those it gives up do, and with one more
/// they would not.
pub proof fn gives_up_less_than_the_excess(order: Seq<Ranked>, excess: nat)
    requires
        excess > 0,
    ensures
        evicted(order, excess) <= order.len(),
        oldest_size(order, evicted(order, excess)) < excess,
        evicted(order, excess) < order.len() ==> oldest_size(order, evicted(order, excess) + 1)
            >= excess,
{
    lemma_walk_ends(order, excess, 0);
}

proof fn lemma_given_up_in_nothing(units: Seq<Unit>, gone: spec_fn(Seq<char>) -> bool)
    ensures
        given_up_in(units, gone, Seq::empty()) == 0,
    decreases units.len(),
{
    if units.len() > 0 {
        lemma_given_up_in_nothing(units.drop_last(), gone);
    }
}

/// An entry whose hash no unit has adds nothing.
proof fn lemma_entry_of_no_unit(
    units: Seq<Unit>,
    gone: spec_fn(Seq<char>) -> bool,
    rest: Seq<Entry>,
    x: Entry,
)
    requires
        forall|i: int| 0 <= i < units.len() ==> artifact_hash(#[trigger] units[i].name@) is None
            || artifact_hash(units[i].name@) != x.spec_hash(),
    ensures
        given_up_in(units, gone, rest.push(x)) == given_up_in(units, gone, rest),
    decreases units.len(),
{
    if units.len() > 0 {
        let init = units.drop_last();
        assert forall|i: int| 0 <= i < init.len() implies artifact_hash(
            #[trigger] init[i].name@,
        ) is None || artifact_hash(init[i].name@) != x.spec_hash() by {
            assert(init[i] == units[i]);
        }
        lemma_entry_of_no_unit(init, gone, rest, x);
        assert(rest.push(x).drop_last() =~= rest);
        assert(artifact_hash(units[units.len() - 1].name@) is None || artifact_hash(
            units[units.len() - 1].name@,
        ) != x.spec_hash());
    }
}

/// One entry more adds its size at most, and only where its hash is gone.
proof fn lemma_one_entry_more(
    units: Seq<Unit>,
    gone: spec_fn(Seq<char>) -> bool,
    rest: Seq<Entry>,
    x: Entry,
)
    requires
        distinct_hashes(units),
    ensures
        given_up_in(units, gone, rest.push(x)) <= given_up_in(units, gone, rest) + match x.spec_hash() {
            Some(hash) => if gone(hash) {
                x.spec_size()
            } else {
                0
            },
            None => 0,
        },
    decreases units.len(),
{
    if units.len() > 0 {
        let init = units.drop_last();
        let last = units.last();
        assert(rest.push(x).drop_last() =~= rest);
        assert forall|i: int, j: int|
            0 <= i < j < init.len() && artifact_hash(init[i].name@) is Some implies artifact_hash(
            init[i].name@,
        ) != artifact_hash(init[j].name@) by {
            assert(init[i] == units[i] && init[j] == units[j]);
        }
        if artifact_hash(last.name@) is Some && x.spec_hash() == artifact_hash(last.name@) {
            assert forall|i: int| 0 <= i < init.len() implies artifact_hash(
                #[trigger] init[i].name@,
            ) is None || artifact_hash(init[i].name@) != x.spec_hash() by {
                assert(init[i] == units[i]);
                assert(units[units.len() - 1] == last);
            }
            lemma_entry_of_no_unit(init, gone, rest, x);
        } else {
            lemma_one_entry_more(init, gone, rest, x);
        }
    }
}

/// What is held for units whose hash is gone is freed, where no hash that is
/// gone is kept.
proof fn lemma_given_up_is_freed(
    units: Seq<Unit>,
    gone: spec_fn(Seq<char>) -> bool,
    entries: Seq<Entry>,
    keep: Set<Seq<char>>,
)
    requires
        distinct_hashes(units),
        forall|h: Seq<char>| #[trigger] gone(h) ==> !keep.contains(h),
    ensures
        given_up_in(units, gone, entries) <= freed_in(entries, keep),
    decreases entries.len(),
{
    if entries.len() == 0 {
        assert(entries =~= Seq::<Entry>::empty());
        lemma_given_up_in_nothing(units, gone);
    } else {
        let rest = entries.drop_last();
        let x = entries.last();
        assert(entries =~= rest.push(x));
        lemma_given_up_is_freed(units, gone, rest, keep);
        lemma_one_entry_more(units, gone, rest, x);
        if x.spec_hash() is Some && gone(x.spec_hash()->0) {
            assert(!keep.contains(x.spec_hash()->0));
            if x.kind == EntryKind::Other {
                assert(x.spec_size() == 0);
            } else {
                assert(is_swept(x, keep));
            }
        }
    }
}

/// The candidates of a profile that are gone take no more than its entries
/// hold for the units whose hash is gone.
proof fn lemma_candidates_given_up(
    units: Seq<Unit>,
    entries: Seq<Entry>,
    location: Seq<Seq<char>>,
    position: usize,
    gone: spec_fn(Ranked) -> bool,
    gone_hash: spec_fn(Seq<char>) -> bool,
)
    requires
        crate::snapshot::listing_bytes(entries) <= u64::MAX,
        forall|c: Ranked| #[trigger] gone(c) && c.profile == position ==> gone_hash(c.hash),
    ensures
        given_up_size(unit_candidates(units, size_index(entries), location, position), gone)
            <= given_up_in(units, gone_hash, entries),
    decreases units.len(),
{
    if units.len() > 0 {
        let init = units.drop_last();
        lemma_candidates_given_up(init, entries, location, position, gone, gone_hash);
        match artifact_hash(units.last().name@) {
            Some(hash) => {
                let before = unit_candidates(init, size_index(entries), location, position);
                let c = Ranked {
                    last_used: crate::policy::last_used(units.last().accessed@),
                    size: indexed(size_index(entries), hash) as u64,
                    location,
                    hash,
                    profile: position,
                };
                assert(before.push(c).drop_last() =~= before);
                lemma_size_of_le_bytes(entries, hash);
                if !crate::size_index::appears(entries, hash) {
                    crate::size_index::lemma_size_of_absent(entries, hash);
                }
                assert(c.size == size_of(entries, hash));
            },
            None => {},
        }
    }
}

/// Each candidate of a profile is of that profile and has the hash of one
/// of its units.
proof fn lemma_candidates_are_units(
    units: Seq<Unit>,
    sizes: Map<Seq<char>, u64>,
    location: Seq<Seq<char>>,
    position: usize,
)
    ensures
        forall|k: int|
            0 <= k < unit_candidates(units, sizes, location, position).len() ==> (
            #[trigger] unit_candidates(units, sizes, location, position)[k]).profile == position
                && exists|i: int|
                0 <= i < units.len() && artifact_hash(#[trigger] units[i].name@) == Some(
                    unit_candidates(units, sizes, location, position)[k].hash,
                ),
    decreases units.len(),
{
    if units.len() > 0 {
        let init = units.drop_last();
        lemma_candidates_are_units(init, sizes, location, position);
        let before = unit_candidates(init, sizes, location, position);
        let all = unit_candidates(units, sizes, location, position);
        assert forall|k: int| 0 <= k < all.len() implies (#[trigger] all[k]).profile == position
            && exists|i: int|
            0 <= i < units.len() && artifact_hash(#[trigger] units[i].name@) == Some(
                all[k].hash,
            ) by {
            if k < before.len() {
                assert(all[k] == before[k]);
                let i = choose|i: int|
                    0 <= i < init.len() && artifact_hash(#[trigger] init[i].name@) == Some(
                        before[k].hash,
                    );
                assert(units[i] == init[i]);
            } else {
                assert(units[units.len() - 1] == units.last());
            }
        }
    }
}

/// The candidates of a profile whose units have distinct hashes are keyed.
proof fn lemma_profile_keyed(
    units: Seq<Unit>,
    sizes: Map<Seq<char>, u64>,
    location: Seq<Seq<char>>,
    position: usize,
)
    requires
        distinct_hashes(units),
    ensures
        keyed(unit_candidates(units, sizes, location, position)),
    decreases units.len(),
{
    if units.len() > 0 {
        let init = units.drop_last();
        assert forall|i: int, j: int|
            0 <= i < j < init.len() && artifact_hash(init[i].name@) is Some implies artifact_hash(
            init[i].name@,
        ) != artifact_hash(init[j].name@) by {
            assert(init[i] == units[i] && init[j] == units[j]);
        }
        lemma_profile_keyed(init, sizes, location, position);
        lemma_candidates_are_units(init, sizes, location, position);
        let before = unit_candidates(init, sizes, location, position);
        let all = unit_candidates(units, sizes, location, position);
        assert forall|i: int, j: int| 0 <= i < j < all.len() implies !((#[trigger] all[i]).profile
            == (#[trigger] all[j]).profile && all[i].hash == all[j].hash) by {
            if j < before.len() {
                assert(all[i] == before[i] && all[j] == before[j]);
            } else {
                assert(all[i] == before[i]);
                let u = choose|u: int|
                    0 <= u < init.len() && artifact_hash(#[trigger] init[u].name@) == Some(
                        before[i].hash,
                    );
                assert(units[u] == init[u]);
                assert(units[units.len() - 1] == units.last());
            }
        }
    }
}

/// The candidates of profiles whose units have distinct hashes are keyed,
/// and each is of one of the profiles.
proof fn lemma_candidates_keyed(profiles: Seq<Profile>, n: nat)
    requires
        n <= profiles.len() <= usize::MAX,
        profiles_distinct(profiles),
    ensures
        keyed(candidates_upto(profiles, n)),
        forall|k: int|
            0 <= k < candidates_upto(profiles, n).len() ==> (#[trigger] candidates_upto(
                profiles,
                n,
            )[k]).profile < n,
    decreases n,
{
    if n > 0 {
        lemma_candidates_keyed(profiles, (n - 1) as nat);
        let profile = profiles[n - 1];
        let position = (n - 1) as usize;
        let sizes = size_index(profile.spec_entries());
        let location = crate::text::texts(profile.location@);
        lemma_profile_keyed(profile.units@, sizes, location, position);
        lemma_candidates_are_units(profile.units@, sizes, location, position);
        let a = candidates_upto(profiles, (n - 1) as nat);
        let b = profile_candidates(profile, position);
        let all = candidates_upto(profiles, n);
        assert(all == a + b);
        assert forall|k: int| 0 <= k < all.len() implies (#[trigger] all[k]).profile < n by {
            if k < a.len() {
                assert(all[k] == a[k]);
            } else {
                assert(all[k] == b[k - a.len()]);
            }
        }
        assert forall|i: int, j: int| 0 <= i < j < all.len() implies !((#[trigger] all[i]).profile
            == (#[trigger] all[j]).profile && all[i].hash == all[j].hash) by {
            if j < a.len() {
                assert(all[i] == a[i] && all[j] == a[j]);
            } else if i < a.len() {
                assert(all[i] == a[i] && all[j] == b[j - a.len()]);
            } else {
                assert(all[i] == b[i - a.len()] && all[j] == b[j - a.len()]);
            }
        }
    }
}

/// A sequence that holds the same elements as a keyed one is keyed.
proof fn lemma_keyed_same(x: Seq<Ranked>, y: Seq<Ranked>)
    requires
        keyed(x),
        x.to_multiset() == y.to_multiset(),
    ensures
        keyed(y),
{
    broadcast use vstd::multiset::group_multiset_axioms;
    broadcast use vstd::seq_lib::group_to_multiset_ensures;

    assert(x.no_duplicates()) by {
        assert forall|i: int, j: int| 0 <= i < x.len() && 0 <= j < x.len() && i != j implies x[i]
            != x[j] by {
            if i < j {
                assert(!(x[i].profile == x[j].profile && x[i].hash == x[j].hash));
            } else {
                assert(!(x[j].profile == x[i].profile && x[j].hash == x[i].hash));
            }
        }
    }
    x.lemma_multiset_has_no_duplicates();
    y.lemma_multiset_has_no_duplicates_conv();
    assert forall|i: int, j: int| 0 <= i < j < y.len() implies !((#[trigger] y[i]).profile == (
    #[trigger] y[j]).profile && y[i].hash == y[j].hash) by {
        assert(y[i] != y[j]);
        assert(y.contains(y[i]) && y.contains(y[j]));
        assert(y.to_multiset().count(y[i]) > 0 && y.to_multiset().count(y[j]) > 0);
        assert(x.contains(y[i]) && x.contains(y[j]));
        let a = choose|a: int| 0 <= a < x.len() && x[a] == y[i];
        let b = choose|b: int| 0 <= b < x.len() && x[b] == y[j];
        if a < b {
            assert(!(x[a].profile == x[b].profile && x[a].hash == x[b].hash));
        } else {
            assert(!(x[b].profile == x[a].profile && x[b].hash == x[a].hash));
        }
    }
}

/// `c` is among the last `e` of `order`.
pub open spec fn is_given_up(order: Seq<Ranked>, e: nat, c: Ranked) -> bool {
    exists|j: int| order.len() - e <= j < order.len() && #[trigger] order[j] == c
}

/// A unit of the profile at `position` with the hash `h` is among the last
/// `e` of `order`.
pub open spec fn hash_is_given_up(order: Seq<Ranked>, e: nat, position: usize, h: Seq<char>) -> bool {
    exists|j: int|
        order.len() - e <= j < order.len() && (#[trigger] order[j]).profile == position
            && order[j].hash == h
}

/// The candidates of the first `n` profiles that are given up take no more
/// than the sweeps of these profiles free.
proof fn lemma_given_up_is_swept(profiles: Seq<Profile>, excess: nat, n: nat)
    requires
        n <= profiles.len() <= usize::MAX,
        profiles_distinct(profiles),
        profiles_bytes(profiles) <= u64::MAX,
        keyed(ranking(profiles)),
        evicted(ranking(profiles), excess) <= ranking(profiles).len(),
    ensures
        given_up_size(
            candidates_upto(profiles, n),
            |c: Ranked| is_given_up(ranking(profiles), evicted(ranking(profiles), excess), c),
        ) <= freed_upto(profiles, keeps_until_fits(profiles, excess), n),
    decreases n,
{
    let order = ranking(profiles);
    let e = evicted(order, excess);
    let gone = |c: Ranked| is_given_up(order, e, c);
    let keeps = keeps_until_fits(profiles, excess);
    if n > 0 {
        lemma_given_up_is_swept(profiles, excess, (n - 1) as nat);
        let profile = profiles[n - 1];
        let position = (n - 1) as usize;
        let entries = profile.spec_entries();
        let gone_hash = |h: Seq<char>| hash_is_given_up(order, e, position, h);
        let keep = keeps[n - 1];
        assert(keep == kept_until_fits(order, excess, position));
        lemma_profiles_bytes_take(profiles, n - 1);
        lemma_profiles_bytes_take(profiles, n as int);
        assert forall|c: Ranked| #[trigger] gone(c) && c.profile == position implies gone_hash(
            c.hash,
        ) by {
            let j = choose|j: int| order.len() - e <= j < order.len() && #[trigger] order[j] == c;
            assert(order[j].profile == position && order[j].hash == c.hash);
        }
        assert forall|h: Seq<char>| #[trigger] gone_hash(h) implies !keep.contains(h) by {
            let j = choose|j: int|
                order.len() - e <= j < order.len() && (#[trigger] order[j]).profile == position
                    && order[j].hash == h;
            if keep.contains(h) {
                let i = choose|i: int|
                    0 <= i < order.len() - e && (#[trigger] order[i]).profile == position
                        && order[i].hash == h;
                assert(!(order[i].profile == order[j].profile && order[i].hash == order[j].hash));
            }
        }
        assert(distinct_hashes(profile.units@));
        lemma_candidates_given_up(
            profile.units@,
            entries,
            crate::text::texts(profile.location@),
            position,
            gone,
            gone_hash,
        );
        lemma_given_up_is_freed(profile.units@, gone_hash, entries, keep);
        lemma_given_up_size_add(
            candidates_upto(profiles, (n - 1) as nat),
            profile_candidates(profile, position),
            gone,
        );
    }
}

/// After a sweep with the size policy, the tree is larger than the target by
/// the size of one unit at most: that of the kept units that was used
/// longest ago. This holds where the tree was larger than the target, where
/// at least one unit is kept, and where no two units of one profile have one
/// hash. The tree after the sweep is the tree before it without what the
/// sweep frees.
pub proof fn size_policy_comes_within_one_unit(
    files: Seq<u64>,
    profiles: Seq<Profile>,
    target_size: u64,
)
    requires
        profiles.len() <= usize::MAX,
        sum(files) <= u64::MAX,
        profiles_bytes(profiles) <= u64::MAX,
        sum(files) > target_size,
        profiles_distinct(profiles),
        evicted(ranking(profiles), (sum(files) - target_size) as nat) < ranking(profiles).len(),
    ensures
        sum(files) - swept_until_fits(files, profiles, target_size, false).freed <= target_size
            + ranking(profiles)[ranking(profiles).len() - 1 - evicted(
            ranking(profiles),
            (sum(files) - target_size) as nat,
        )].size,
{
    let excess = (sum(files) - target_size) as nat;
    let all = candidates_upto(profiles, profiles.len());
    let order = ranking(profiles);
    let e = evicted(order, excess);
    let gone = |c: Ranked| is_given_up(order, e, c);
    crate::rank::lemma_rank_order_total();
    all.lemma_sort_by_ensures(rank_order());
    lemma_candidates_keyed(profiles, profiles.len());
    lemma_keyed_same(all, order);
    lemma_walk_ends(order, excess, 0);
    lemma_oldest_given_up(order, e, gone);
    lemma_given_up_size_same(order, all, gone);
    lemma_given_up_is_swept(profiles, excess, profiles.len());
}

} // verus!
