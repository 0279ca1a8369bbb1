//! The sorted set with logical deletion: a removal first tags the removed node's link,
//! then unlinks the node, and an iteration validates each step against the slot it came
//! from. An iteration that finds that slot changed reports it once, then ends.
use crate::chain::{ascending, live_link, Chain, Link};
use crate::concurrent_set::ConcurrentSet;
use vstd::prelude::*;

verus! {

/// A sorted set of keys kept as a key-ordered chain with tagged links.
pub struct OptimisticFineGrainedListSet {
    chain: Chain,
}

/// An iteration in progress: the slot it read last, what that slot held then, whether it
/// has been invalidated, and (ghost) the key it yielded last.
pub struct Iter {
    prev: Option<usize>,
    curr: Link,
    done: bool,
    last: Ghost<Option<u64>>,
}

impl OptimisticFineGrainedListSet {
    /// The keys of the set, in chain order.
    pub closed spec fn view(&self) -> Seq<u64> {
        self.chain@
    }

    pub closed spec fn wf(&self) -> bool {
        self.chain.wf()
    }

    /// What the slot at `pos` holds now (`None` is the head slot).
    pub closed spec fn link_at(&self, pos: Option<usize>) -> Link {
        self.chain.link_at(pos)
    }

    /// The key of the node in arena slot `i`.
    pub closed spec fn key_at(&self, i: usize) -> u64 {
        self.chain.key_at(i)
    }

    /// The number of arena slots ever allocated.
    pub closed spec fn arena_len(&self) -> nat {
        self.chain.arena_len()
    }

    /// A slot position that names the head or an allocated node.
    pub open spec fn valid_pos(&self, pos: Option<usize>) -> bool {
        match pos {
            None => true,
            Some(i) => i < self.arena_len(),
        }
    }

    /// `self` is a later state of `old`: every node of `old` is still allocated, with its key.
    pub open spec fn extends(&self, old: &OptimisticFineGrainedListSet) -> bool {
        &&& old.arena_len() <= self.arena_len()
        &&& forall|i: usize| i < old.arena_len() ==> #[trigger] self.key_at(i) == old.key_at(i)
    }

    /// The slot at `pos` is where `key` is linked in: it is untagged, it is the head or
    /// belongs to a node with a smaller key, and it leads nowhere or to a larger key.
    pub open spec fn insert_slot(&self, pos: Option<usize>, key: u64) -> bool {
        &&& !self.link_at(pos).tagged
        &&& match pos {
            Some(i) => self.key_at(i) < key,
            None => true,
        }
        &&& match self.link_at(pos).target {
            Some(j) => key < self.key_at(j),
            None => true,
        }
    }

    /// When `linked`, the slot where `key` is linked in now leads to the new node in the
    /// first fresh arena slot; every other slot of `old` keeps its link.
    pub open spec fn insert_frame(&self, old: &OptimisticFineGrainedListSet, key: u64, linked: bool) -> bool {
        forall|pos: Option<usize>|
            old.valid_pos(pos) ==> #[trigger] self.link_at(pos) == if linked && old.insert_slot(
                pos,
                key,
            ) {
                live_link(Some(old.arena_len() as usize))
            } else {
                old.link_at(pos)
            }
    }

    /// The link `l` leads to the node holding the least key of the set above `last` (above
    /// every key when `last` is `None`), or nowhere when the set holds no such key.
    pub open spec fn leads_above(&self, l: Link, last: Option<u64>) -> bool {
        match l.target {
            Some(t) => {
                &&& self@.contains(self.key_at(t))
                &&& (last matches Some(y) ==> y < self.key_at(t))
                &&& forall|k: u64|
                    #[trigger] self@.contains(k) && (last matches Some(y) ==> y < k) ==> self.key_at(t)
                        <= k
            },
            None => forall|k: u64| #[trigger] self@.contains(k) ==> (last matches Some(y) && k <= y),
        }
    }

    /// Every slot of `old` keeps its link, except untagged slots that belong to a node
    /// holding `key` or lead to one.
    pub open spec fn remove_frame(&self, old: &OptimisticFineGrainedListSet, key: u64) -> bool {
        forall|pos: Option<usize>|
            old.valid_pos(pos) ==> #[trigger] self.link_at(pos) == old.link_at(pos) || (
            !old.link_at(pos).tagged && (match pos {
                Some(i) => old.key_at(i) == key,
                None => false,
            } || match old.link_at(pos).target {
                Some(j) => old.key_at(j) == key,
                None => false,
            }))
    }

    /// Every node of `old` that held `key` under an untagged link now has a tagged link.
    pub open spec fn remove_tags(&self, old: &OptimisticFineGrainedListSet, key: u64) -> bool {
        forall|i: usize|
            i < old.arena_len() && old.key_at(i) == key && !old.link_at(Some(i)).tagged
                ==> #[trigger] self.link_at(Some(i)).tagged
    }

    /// The empty set.
    pub fn new() -> (r: Self)
        ensures
            r.wf(),
            r@ == Seq::<u64>::empty(),
    {
        OptimisticFineGrainedListSet { chain: Chain::new() }
    }

    /// Whether `key` is in the set.
    pub fn contains(&self, key: &u64) -> (r: bool)
        requires
            self.wf(),
        ensures
            r == self@.contains(*key),
    {
        self.chain.contains(*key)
    }

    /// Adds `key`; true iff it was absent (and is now present).
    pub fn insert(&mut self, key: u64) -> (r: bool)
        requires
            old(self).wf(),
        ensures
            final(self).wf(),
            final(self).extends(old(self)),
            final(self).arena_len() == old(self).arena_len() + if r { 1nat } else { 0nat },
            final(self).insert_frame(old(self), key, r),
            r == !old(self)@.contains(key),
            forall|k: u64| #[trigger] final(self)@.contains(k) == (old(self)@.contains(k) || k == key),
    {
        self.chain.insert(key)
    }

    /// Removes `key`; true iff it was present (and is now absent). The removed node's link
    /// is tagged before the node is unlinked.
    pub fn remove(&mut self, key: &u64) -> (r: bool)
        requires
            old(self).wf(),
        ensures
            final(self).wf(),
            final(self).extends(old(self)),
            final(self).arena_len() == old(self).arena_len(),
            final(self).remove_frame(old(self), *key),
            final(self).remove_tags(old(self), *key),
            r == old(self)@.contains(*key),
            forall|k: u64| #[trigger] final(self)@.contains(k) == (old(self)@.contains(k) && k != *key),
    {
        self.chain.remove(*key)
    }

    /// An iteration from the head slot.
    pub fn iter(&self) -> (r: Iter)
        requires
            self.wf(),
        ensures
            r.valid_for(self),
            r.prev_slot() == None::<usize>,
            r.curr_link() == self.link_at(None),
            !r.is_done(),
            r.last_yielded() == None::<u64>,
            self.leads_above(r.curr_link(), None),
    {
        let curr = self.chain.link(None);
        proof {
            self.chain.lemma_live_head();
            match curr.target {
                Some(t) => self.chain.lemma_live_step(None, t),
                None => self.chain.lemma_live_end(None),
            }
        }
        Iter { prev: None, curr, done: false, last: Ghost(None) }
    }

    /// The keys, gathered by one iteration from the head to its end: ascending order.
    /// Nothing changes the set meanwhile, so no step is invalidated.
    pub fn collect_keys(&self) -> (r: Vec<u64>)
        requires
            self.wf(),
        ensures
            r@ == self@,
            ascending(r@),
    {
        proof {
            self.chain.lemma_ascending();
        }
        let mut it = self.iter();
        let mut out: Vec<u64> = Vec::new();
        loop
            invariant
                self.wf(),
                ascending(self@),
                it.valid_for(self),
                !it.is_done(),
                it.curr_link() == self.link_at(it.prev_slot()),
                out@.len() <= self@.len(),
                out@ == self@.subrange(0, out@.len() as int),
                out@.len() == 0 ==> it.last_yielded() == None::<u64>,
                out@.len() > 0 ==> it.last_yielded() == Some(out@.last()),
            decreases self@.len() - out@.len(),
        {
            let n = out.len();
            match it.next(self) {
                Some(Ok(y)) => {
                    proof {
                        assert(self@.contains(y));
                        let j = choose|j: int| 0 <= j < self@.len() && self@[j] == y;
                        if n > 0 {
                            assert(self@[n - 1] == out@.last());
                            if j < n {
                                if j < n - 1 {
                                    assert(self@[j] < self@[n - 1]);
                                }
                            }
                        }
                        if j > n {
                            assert(self@[n as int] < self@[j]);
                            assert(self@.contains(self@[n as int]));
                            if n > 0 {
                                assert(self@[n - 1] < self@[n as int]);
                            }
                        }
                        assert(j == n);
                    }
                    out.push(y);
                    proof {
                        assert(out@ =~= self@.subrange(0, out@.len() as int));
                    }
                },
                _ => {
                    proof {
                        if n < self@.len() {
                            assert(self@.contains(self@[n as int]));
                            if n > 0 {
                                assert(self@[n - 1] < self@[n as int]);
                            }
                        }
                        assert(out@ =~= self@);
                    }
                    return out;
                },
            }
        }
    }
}

impl ConcurrentSet for OptimisticFineGrainedListSet {
    open spec fn keys(&self) -> Seq<u64> {
        self@
    }

    open spec fn inv(&self) -> bool {
        self.wf()
    }

    fn contains(&self, key: &u64) -> (r: bool) {
        OptimisticFineGrainedListSet::contains(self, key)
    }

    fn insert(&mut self, key: u64) -> (r: bool) {
        OptimisticFineGrainedListSet::insert(self, key)
    }

    fn remove(&mut self, key: &u64) -> (r: bool) {
        OptimisticFineGrainedListSet::remove(self, key)
    }
}

impl Default for OptimisticFineGrainedListSet {
    fn default() -> (r: Self)
        ensures
            r.wf(),
            r@ == Seq::<u64>::empty(),
    {
        OptimisticFineGrainedListSet::new()
    }
}

impl Iter {
    pub closed spec fn prev_slot(&self) -> Option<usize> {
        self.prev
    }

    pub closed spec fn curr_link(&self) -> Link {
        self.curr
    }

    pub closed spec fn is_done(&self) -> bool {
        self.done
    }

    pub closed spec fn last_yielded(&self) -> Option<u64> {
        self.last@
    }

    /// The iteration points into `set`'s arena: its slot and the node it read are
    /// allocated, what it read was untagged, and the key it yielded last is the key of the
    /// node whose slot it holds.
    pub open spec fn valid_for(&self, set: &OptimisticFineGrainedListSet) -> bool {
        &&& set.valid_pos(self.prev_slot())
        &&& !self.curr_link().tagged
        &&& match self.curr_link().target {
            Some(t) => t < set.arena_len(),
            None => true,
        }
        &&& match self.prev_slot() {
            None => self.last_yielded() == None::<u64>,
            Some(p) => self.last_yielded() == Some(set.key_at(p)),
        }
    }

    /// Yields the next key. The step first re-reads the slot it holds: if that slot no
    /// longer holds what it held when read, the chain changed under the iteration, and the
    /// step yields `Err(())`; every later step then yields `None`.
    pub fn next(&mut self, set: &OptimisticFineGrainedListSet) -> (r: Option<Result<u64, ()>>)
        requires
            set.wf(),
            old(self).valid_for(set),
        ensures
            final(self).valid_for(set),
            old(self).is_done() ==> r == None::<Result<u64, ()>> && final(self).is_done(),
            !old(self).is_done() && set.link_at(old(self).prev_slot()) != old(self).curr_link() ==> r
                == Some(Err::<u64, ()>(())) && final(self).is_done(),
            !old(self).is_done() && set.link_at(old(self).prev_slot()) == old(self).curr_link()
                ==> match old(self).curr_link().target {
                None => r == None::<Result<u64, ()>> && *final(self) == *old(self),
                Some(c) => {
                    &&& r == Some(Ok::<u64, ()>(set.key_at(c)))
                    &&& final(self).prev_slot() == Some(c)
                    &&& final(self).curr_link() == set.link_at(Some(c))
                    &&& !final(self).is_done()
                },
            },
            r matches Some(Ok(y)) ==> final(self).last_yielded() == Some(y),
            r matches Some(Ok(y)) ==> set.leads_above(final(self).curr_link(), Some(y)),
            !(r matches Some(Ok(_))) ==> {
                &&& final(self).prev_slot() == old(self).prev_slot()
                &&& final(self).curr_link() == old(self).curr_link()
                &&& final(self).last_yielded() == old(self).last_yielded()
            },
            // keys come out strictly ascending, each the least key of the set above the last
            r matches Some(Ok(k)) ==> match old(self).last_yielded() {
                Some(l) => l < k,
                None => true,
            },
            r matches Some(Ok(y)) ==> set@.contains(y),
            r matches Some(Ok(y)) ==> forall|k: u64|
                #[trigger] set@.contains(k) && (match old(self).last_yielded() {
                    Some(l) => l < k,
                    None => true,
                }) ==> y <= k,
            // an end that was not an invalidation leaves no key of the set above the last
            forall|k: u64|
                !old(self).is_done() && r == None::<Result<u64, ()>> && #[trigger] set@.contains(k)
                    ==> match old(self).last_yielded() {
                    Some(l) => k <= l,
                    None => false,
                },
    {
        if self.done {
            return None;
        }
        let now = set.chain.link(self.prev);
        if now != self.curr {
            self.done = true;
            return Some(Err(()));
        }
        match self.curr.target {
            None => {
                proof {
                    set.chain.lemma_live_end(self.prev);
                }
                None
            },
            Some(c) => {
                proof {
                    set.chain.lemma_live_step(self.prev, c);
                }
                let key = set.chain.key(c);
                let next = set.chain.link(Some(c));
                proof {
                    match next.target {
                        Some(t) => set.chain.lemma_live_step(Some(c), t),
                        None => set.chain.lemma_live_end(Some(c)),
                    }
                }
                self.prev = Some(c);
                self.curr = next;
                self.last = Ghost(Some(key));
                Some(Ok(key))
            },
        }
    }
}

/// An iteration stays usable across later mutations of the set: it still points into the
/// arena, and each of its steps is then validated against the set as it is.
pub proof fn lemma_iter_survives_mutation(
    it: &Iter,
    before: &OptimisticFineGrainedListSet,
    after: &OptimisticFineGrainedListSet,
)
    requires
        it.valid_for(before),
        after.extends(before),
    ensures
        it.valid_for(after),
{
    if let Some(p) = it.prev_slot() {
        assert(after.key_at(p) == before.key_at(p));
    }
}

/// A full iteration yields strictly ascending keys, and no key is held twice.
pub proof fn lemma_sorted_without_duplicates(set: &OptimisticFineGrainedListSet)
    requires
        set.wf(),
    ensures
        ascending(set@),
        set@.no_duplicates(),
{
    set.chain.lemma_ascending();
}

} // verus!
