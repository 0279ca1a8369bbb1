//! The sorted set whose operations walk the chain hand over hand: every operation
//! locates its position with one cursor and, for a mutation, rewrites the link at that
//! very cursor, so the existence check and the update never come apart.
use crate::chain::{ascending, Chain};
use crate::concurrent_set::ConcurrentSet;
use vstd::prelude::*;

verus! {

/// A sorted set of keys kept as a key-ordered chain of nodes.
pub struct FineGrainedListSet {
    chain: Chain,
}

impl FineGrainedListSet {
    /// The keys of the set, in chain order.
    pub closed spec fn view(&self) -> Seq<u64> {
        self.chain@
    }

    pub closed spec fn wf(&self) -> bool {
        self.chain.wf()
    }

    /// The empty set.
    pub fn new() -> (r: Self)
        ensures
            r.wf(),
            r@ == Seq::<u64>::empty(),
    {
        FineGrainedListSet { chain: Chain::new() }
    }

    /// Whether `key` is in the set.
    pub fn contains(&self, key: &u64) -> (r: bool)
        requires
            self.wf(),
        ensures
            r == self@.contains(*key),
    {
        self.chain.contains(*key)
    }

    /// Adds `key`; true iff it was absent (and is now present).
    pub fn insert(&mut self, key: u64) -> (r: bool)
        requires
            old(self).wf(),
        ensures
            final(self).wf(),
            r == !old(self)@.contains(key),
            forall|k: u64| #[trigger] final(self)@.contains(k) == (old(self)@.contains(k) || k == key),
    {
        self.chain.insert(key)
    }

    /// Removes `key`; true iff it was present (and is now absent).
    pub fn remove(&mut self, key: &u64) -> (r: bool)
        requires
            old(self).wf(),
        ensures
            final(self).wf(),
            r == old(self)@.contains(*key),
            forall|k: u64| #[trigger] final(self)@.contains(k) == (old(self)@.contains(k) && k != *key),
    {
        self.chain.remove(*key)
    }

    /// The keys, visited from the head to the end of the chain: ascending order.
    pub fn iter(&self) -> (r: Vec<u64>)
        requires
            self.wf(),
        ensures
            r@ == self@,
            ascending(r@),
    {
        proof {
            self.chain.lemma_ascending();
        }
        self.chain.keys()
    }
}

impl ConcurrentSet for FineGrainedListSet {
    open spec fn keys(&self) -> Seq<u64> {
        self@
    }

    open spec fn inv(&self) -> bool {
        self.wf()
    }

    fn contains(&self, key: &u64) -> (r: bool) {
        FineGrainedListSet::contains(self, key)
    }

    fn insert(&mut self, key: u64) -> (r: bool) {
        FineGrainedListSet::insert(self, key)
    }

    fn remove(&mut self, key: &u64) -> (r: bool) {
        FineGrainedListSet::remove(self, key)
    }
}

impl Default for FineGrainedListSet {
    fn default() -> (r: Self)
        ensures
            r.wf(),
            r@ == Seq::<u64>::empty(),
    {
        FineGrainedListSet::new()
    }
}

/// A full iteration yields strictly ascending keys, and no key is held twice.
pub proof fn lemma_sorted_without_duplicates(set: &FineGrainedListSet)
    requires
        set.wf(),
    ensures
        ascending(set@),
        set@.no_duplicates(),
{
    set.chain.lemma_ascending();
}

} // verus!
