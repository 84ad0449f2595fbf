//! The hashes of the units that a sweep leaves alone.

use vstd::prelude::*;
use vstd::hash_set::StringHashSet;

verus! {

/// A set of artifact hashes.
pub struct KeepSet {
    hashes: StringHashSet,
}

impl View for KeepSet {
    type V = Set<Seq<char>>;

    closed spec fn view(&self) -> Set<Seq<char>> {
        self.hashes@
    }
}

impl KeepSet {
    /// The empty set.
    pub fn new() -> (keep: KeepSet)
        ensures
            keep@ == Set::<Seq<char>>::empty(),
    {
        KeepSet { hashes: StringHashSet::new() }
    }

    /// Adds `hash`; tells whether it was new.
    pub fn insert(&mut self, hash: String) -> (added: bool)
        ensures
            final(self)@ == old(self)@.insert(hash@),
            added == !old(self)@.contains(hash@),
    {
        self.hashes.insert(hash)
    }

    /// Whether `hash` is in the set.
    pub fn contains(&self, hash: &str) -> (found: bool)
        ensures
            found == self@.contains(hash@),
    {
        self.hashes.contains(hash)
    }

    /// The number of hashes in the set.
    pub fn len(&self) -> (n: usize)
        ensures
            n == self@.len(),
    {
        self.hashes.len()
    }

    /// Whether the set holds no hash.
    pub fn is_empty(&self) -> (empty: bool)
        ensures
            empty == self@.is_empty(),
    {
        self.hashes.is_empty()
    }
}

} // verus!
