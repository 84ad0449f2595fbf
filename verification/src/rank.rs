//! The order in which the size policy ranks units: by the time since they
//! were last used, then by size, then by the path of the `.fingerprint`
//! directory of their profile, then by hash. Texts are ordered as their
//! UTF-8 bytes are, paths component by component.

use vstd::prelude::*;
use vstd::relations::{sorted_by, total_ordering};
use vstd::seq_lib::lemma_sorted_unique;
use vstd::string::StringSliceAdditionalSpecFns;
use vstd::utf8::encode_utf8;
use crate::text::texts;

verus! {

/// One unit as the size policy ranks it.
pub struct Candidate<'a> {
    /// The time since the unit was last used, in nanoseconds.
    pub last_used: u128,
    /// The space the unit takes.
    pub size: u64,
    /// The path components of the `.fingerprint` directory of the unit's
    /// profile.
    pub location: &'a Vec<String>,
    /// The unit's hash.
    pub hash: String,
    /// The position of the unit's profile among the profiles.
    pub profile: usize,
}

/// A candidate, in specifications.
pub struct Ranked {
    pub last_used: u128,
    pub size: u64,
    pub location: Seq<Seq<char>>,
    pub hash: Seq<char>,
    pub profile: usize,
}

impl<'a> View for Candidate<'a> {
    type V = Ranked;

    open spec fn view(&self) -> Ranked {
        Ranked {
            last_used: self.last_used,
            size: self.size,
            location: texts(self.location@),
            hash: self.hash@,
            profile: self.profile,
        }
    }
}

/// The candidates of `candidates`, in specifications.
pub open spec fn ranked<'a>(candidates: Seq<Candidate<'a>>) -> Seq<Ranked> {
    candidates.map_values(|c: Candidate<'a>| c@)
}

/// `a` comes before `b` or is `b`, byte by byte; a prefix comes first.
pub open spec fn bytes_le(a: Seq<u8>, b: Seq<u8>) -> bool
    decreases a.len(),
{
    if a.len() == 0 {
        true
    } else if b.len() == 0 {
        false
    } else if a[0] != b[0] {
        a[0] < b[0]
    } else {
        bytes_le(a.drop_first(), b.drop_first())
    }
}

/// The order of texts: that of their UTF-8 bytes.
pub open spec fn text_le(a: Seq<char>, b: Seq<char>) -> bool {
    bytes_le(encode_utf8(a), encode_utf8(b))
}

/// The order of paths: component by component; a prefix comes first.
pub open spec fn names_le(a: Seq<Seq<char>>, b: Seq<Seq<char>>) -> bool
    decreases a.len(),
{
    if a.len() == 0 {
        true
    } else if b.len() == 0 {
        false
    } else if a[0] != b[0] {
        text_le(a[0], b[0])
    } else {
        names_le(a.drop_first(), b.drop_first())
    }
}

/// The order of candidates: by last use, then size, then path, then hash, and
/// last by the position of the profile.
pub open spec fn ranked_le(a: Ranked, b: Ranked) -> bool {
    if a.last_used != b.last_used {
        a.last_used < b.last_used
    } else if a.size != b.size {
        a.size < b.size
    } else if a.location != b.location {
        names_le(a.location, b.location)
    } else if a.hash != b.hash {
        text_le(a.hash, b.hash)
    } else {
        a.profile <= b.profile
    }
}

/// `ranked_le` as a relation.
pub open spec fn rank_order() -> spec_fn(Ranked, Ranked) -> bool {
    |a: Ranked, b: Ranked| ranked_le(a, b)
}

/// Of two byte sequences one comes before the other, and each before itself.
pub proof fn lemma_bytes_le_total(a: Seq<u8>, b: Seq<u8>)
    ensures
        bytes_le(a, b) || bytes_le(b, a),
        bytes_le(a, a),
    decreases a.len(),
{
    if a.len() > 0 {
        lemma_bytes_le_total(a.drop_first(), a.drop_first());
        if b.len() > 0 {
            lemma_bytes_le_total(a.drop_first(), b.drop_first());
        }
    }
}

/// Byte sequences that come before each other are equal.
pub proof fn lemma_bytes_le_antisymmetric(a: Seq<u8>, b: Seq<u8>)
    requires
        bytes_le(a, b),
        bytes_le(b, a),
    ensures
        a == b,
    decreases a.len(),
{
    if a.len() == 0 {
        assert(a =~= b);
    } else {
        lemma_bytes_le_antisymmetric(a.drop_first(), b.drop_first());
        assert(a =~= seq![a[0]] + a.drop_first());
        assert(b =~= seq![b[0]] + b.drop_first());
    }
}

/// `bytes_le` is transitive.
pub proof fn lemma_bytes_le_transitive(a: Seq<u8>, b: Seq<u8>, c: Seq<u8>)
    requires
        bytes_le(a, b),
        bytes_le(b, c),
    ensures
        bytes_le(a, c),
    decreases a.len(),
{
    if a.len() > 0 && a[0] == b[0] && b[0] == c[0] {
        lemma_bytes_le_transitive(a.drop_first(), b.drop_first(), c.drop_first());
    }
}

/// Texts that come before each other are equal.
pub proof fn lemma_text_le_antisymmetric(a: Seq<char>, b: Seq<char>)
    requires
        text_le(a, b),
        text_le(b, a),
    ensures
        a == b,
{
    lemma_bytes_le_antisymmetric(encode_utf8(a), encode_utf8(b));
    vstd::utf8::encode_utf8_decode_utf8(a);
    vstd::utf8::encode_utf8_decode_utf8(b);
}

/// Of two paths one comes before the other, and each before itself.
pub proof fn lemma_names_le_total(a: Seq<Seq<char>>, b: Seq<Seq<char>>)
    ensures
        names_le(a, b) || names_le(b, a),
        names_le(a, a),
    decreases a.len(),
{
    if a.len() > 0 {
        lemma_names_le_total(a.drop_first(), a.drop_first());
        if b.len() > 0 {
            lemma_bytes_le_total(encode_utf8(a[0]), encode_utf8(b[0]));
            lemma_names_le_total(a.drop_first(), b.drop_first());
        }
    }
}

/// Paths that come before each other are equal.
pub proof fn lemma_names_le_antisymmetric(a: Seq<Seq<char>>, b: Seq<Seq<char>>)
    requires
        names_le(a, b),
        names_le(b, a),
    ensures
        a == b,
    decreases a.len(),
{
    if a.len() == 0 {
        assert(a =~= b);
    } else {
        if a[0] != b[0] {
            lemma_text_le_antisymmetric(a[0], b[0]);
        }
        lemma_names_le_antisymmetric(a.drop_first(), b.drop_first());
        assert(a =~= seq![a[0]] + a.drop_first());
        assert(b =~= seq![b[0]] + b.drop_first());
    }
}

/// `names_le` is transitive.
pub proof fn lemma_names_le_transitive(a: Seq<Seq<char>>, b: Seq<Seq<char>>, c: Seq<Seq<char>>)
    requires
        names_le(a, b),
        names_le(b, c),
    ensures
        names_le(a, c),
    decreases a.len(),
{
    if a.len() > 0 {
        if a[0] == b[0] && b[0] == c[0] {
            lemma_names_le_transitive(a.drop_first(), b.drop_first(), c.drop_first());
        } else if a[0] != b[0] && b[0] != c[0] {
            lemma_bytes_le_transitive(encode_utf8(a[0]), encode_utf8(b[0]), encode_utf8(c[0]));
            if a[0] == c[0] {
                lemma_text_le_antisymmetric(a[0], b[0]);
            }
        }
    }
}

/// The order of candidates is a total order.
pub proof fn lemma_rank_order_total()
    ensures
        total_ordering(rank_order()),
{
    let r = rank_order();
    assert forall|x: Ranked| #[trigger] r(x, x) by {}
    assert forall|x: Ranked, y: Ranked| #[trigger] r(x, y) && #[trigger] r(y, x) implies x
        == y by {
        if x.location != y.location {
            lemma_names_le_antisymmetric(x.location, y.location);
        }
        if x.hash != y.hash {
            lemma_text_le_antisymmetric(x.hash, y.hash);
        }
    }
    assert forall|x: Ranked, y: Ranked, z: Ranked| #[trigger] r(x, y) && #[trigger] r(y, z) implies r(
        x,
        z,
    ) by {
        if x.last_used == y.last_used && y.last_used == z.last_used && x.size == y.size && y.size
            == z.size {
            if x.location != y.location && y.location != z.location {
                lemma_names_le_transitive(x.location, y.location, z.location);
                if x.location == z.location {
                    lemma_names_le_antisymmetric(x.location, y.location);
                }
            } else if x.location == y.location && y.location == z.location {
                if x.hash != y.hash && y.hash != z.hash {
                    lemma_bytes_le_transitive(
                        encode_utf8(x.hash),
                        encode_utf8(y.hash),
                        encode_utf8(z.hash),
                    );
                    if x.hash == z.hash {
                        lemma_text_le_antisymmetric(x.hash, y.hash);
                    }
                }
            }
        }
    }
    assert forall|x: Ranked, y: Ranked| #[trigger] r(x, y) || #[trigger] r(y, x) by {
        lemma_names_le_total(x.location, y.location);
        lemma_bytes_le_total(encode_utf8(x.hash), encode_utf8(y.hash));
    }
}

/// Whether the bytes `a` come before the bytes `b` or are `b`.
fn slice_le(a: &[u8], b: &[u8]) -> (r: bool)
    ensures
        r == bytes_le(a@, b@),
{
    let mut i: usize = 0;
    proof {
        assert(a@.skip(0) =~= a@);
        assert(b@.skip(0) =~= b@);
    }
    while i < a.len() && i < b.len()
        invariant
            i <= a.len(),
            i <= b.len(),
            bytes_le(a@, b@) == bytes_le(a@.skip(i as int), b@.skip(i as int)),
        decreases a.len() - i,
    {
        proof {
            assert(a@.skip(i as int)[0] == a@[i as int]);
            assert(b@.skip(i as int)[0] == b@[i as int]);
            assert(a@.skip(i as int).drop_first() =~= a@.skip(i + 1));
            assert(b@.skip(i as int).drop_first() =~= b@.skip(i + 1));
        }
        if a[i] != b[i] {
            return a[i] < b[i];
        }
        i += 1;
    }
    i == a.len()
}

/// Whether the text `a` comes before the text `b` or is `b`.
pub fn text_before(a: &str, b: &str) -> (r: bool)
    ensures
        r == text_le(a@, b@),
{
    slice_le(a.as_bytes(), b.as_bytes())
}

/// Whether the path `a` comes before the path `b` or is `b`.
pub fn names_before(a: &Vec<String>, b: &Vec<String>) -> (r: bool)
    ensures
        r == names_le(texts(a@), texts(b@)),
{
    let ghost ta = texts(a@);
    let ghost tb = texts(b@);
    let mut i: usize = 0;
    proof {
        assert(ta.skip(0) =~= ta);
        assert(tb.skip(0) =~= tb);
    }
    while i < a.len() && i < b.len()
        invariant
            i <= a.len(),
            i <= b.len(),
            ta == texts(a@),
            tb == texts(b@),
            names_le(ta, tb) == names_le(ta.skip(i as int), tb.skip(i as int)),
        decreases a.len() - i,
    {
        proof {
            assert(ta.skip(i as int)[0] == a@[i as int]@);
            assert(tb.skip(i as int)[0] == b@[i as int]@);
            assert(ta.skip(i as int).drop_first() =~= ta.skip(i + 1));
            assert(tb.skip(i as int).drop_first() =~= tb.skip(i + 1));
        }
        if a[i] != b[i] {
            return text_before(a[i].as_str(), b[i].as_str());
        }
        i += 1;
    }
    i == a.len()
}

/// Whether `a` ranks before `b` or as `b`.
pub fn ranks_before<'a>(a: &Candidate<'a>, b: &Candidate<'a>) -> (r: bool)
    ensures
        r == ranked_le(a@, b@),
{
    if a.last_used != b.last_used {
        a.last_used < b.last_used
    } else if a.size != b.size {
        a.size < b.size
    } else {
        let same_location = names_before(a.location, b.location) && names_before(
            b.location,
            a.location,
        );
        proof {
            lemma_names_le_total(a@.location, b@.location);
            if same_location {
                lemma_names_le_antisymmetric(a@.location, b@.location);
            }
        }
        if !same_location {
            names_before(a.location, b.location)
        } else if a.hash != b.hash {
            text_before(a.hash.as_str(), b.hash.as_str())
        } else {
            a.profile <= b.profile
        }
    }
}

/// The candidates of `s` in rank order.
pub open spec fn in_rank_order(s: Seq<Ranked>) -> Seq<Ranked> {
    s.sort_by(rank_order())
}

/// What `in_rank_order` gives holds the candidates of `s`, each as often as
/// `s` does, and none of them before one that ranks before it.
pub proof fn rank_order_sorts(s: Seq<Ranked>)
    ensures
        sorted_by(in_rank_order(s), rank_order()),
        in_rank_order(s).to_multiset() == s.to_multiset(),
{
    lemma_rank_order_total();
    s.lemma_sort_by_ensures(rank_order());
}

/// Puts `candidates` in rank order.
pub fn sort_candidates<'a>(candidates: Vec<Candidate<'a>>) -> (sorted: Vec<Candidate<'a>>)
    ensures
        ranked(sorted@) == in_rank_order(ranked(candidates@)),
{
    broadcast use vstd::multiset::group_multiset_axioms;
    broadcast use vstd::seq_lib::group_to_multiset_ensures;

    let ghost all = ranked(candidates@);
    let mut rest = candidates;
    let mut sorted: Vec<Candidate<'a>> = Vec::new();
    proof {
        assert(ranked(sorted@) =~= Seq::<Ranked>::empty());
        assert(ranked(sorted@).to_multiset() =~= vstd::multiset::Multiset::<Ranked>::empty());
        lemma_rank_order_total();
    }
    while rest.len() > 0
        invariant
            total_ordering(rank_order()),
            sorted_by(ranked(sorted@), rank_order()),
            ranked(sorted@).to_multiset().add(ranked(rest@).to_multiset()) == all.to_multiset(),
        decreases rest.len(),
    {
        let ghost before_rest = ranked(rest@);
        let ghost before = ranked(sorted@);
        let next = rest.pop().unwrap();
        proof {
            assert(before_rest =~= ranked(rest@).push(next@));
        }
        let mut at: usize = 0;
        while at < sorted.len() && ranks_before(&sorted[at], &next)
            invariant
                at <= sorted.len(),
                before == ranked(sorted@),
                forall|k: int| 0 <= k < at ==> ranked_le(#[trigger] before[k], next@),
            decreases sorted.len() - at,
        {
            at += 1;
        }
        sorted.insert(at, next);
        proof {
            let after = ranked(sorted@);
            assert(after =~= before.insert(at as int, next@));
            vstd::seq_lib::to_multiset_insert(before, at as int, next@);
            let r = rank_order();
            assert forall|i: int, j: int| 0 <= i < j < after.len() implies #[trigger] r(
                after[i],
                after[j],
            ) by {
                if j < at {
                    assert(r(before[i], before[j]));
                } else if j == at {
                    assert(ranked_le(before[i], next@));
                } else if i == at {
                    assert(!ranked_le(before[at as int], next@));
                    assert(r(before[at as int], next@) || r(next@, before[at as int]));
                    if j - 1 > at {
                        assert(r(before[at as int], before[j - 1]));
                        assert(r(next@, before[at as int]) && r(before[at as int], before[j - 1]));
                    }
                } else if i < at {
                    assert(r(before[i], before[j - 1]));
                } else {
                    assert(r(before[i - 1], before[j - 1]));
                }
            }
            let left = ranked(rest@);
            assert(before_rest =~= left.push(next@));
            vstd::seq_lib::to_multiset_build(left, next@);
            assert(after.to_multiset() == before.to_multiset().insert(next@));
            assert(before.to_multiset().insert(next@).add(left.to_multiset())
                =~= before.to_multiset().add(left.to_multiset().insert(next@)));
        }
    }
    proof {
        assert(ranked(rest@) =~= Seq::<Ranked>::empty());
        assert(ranked(rest@).to_multiset() =~= vstd::multiset::Multiset::<Ranked>::empty());
        assert(ranked(sorted@).to_multiset() =~= all.to_multiset());
        all.lemma_sort_by_ensures(rank_order());
        lemma_sorted_unique(ranked(sorted@), all.sort_by(rank_order()), rank_order());
    }
    sorted
}

} // verus!
