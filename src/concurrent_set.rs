//! The capability both sets offer, and replaying a sequence of operations through it.
use crate::log_check::{run, step, Log};
use vstd::prelude::*;

verus! {

/// A set of keys with `contains`, `insert` and `remove`, each stated against the keys the
/// set holds.
pub trait ConcurrentSet: Sized {
    /// The keys the set holds.
    spec fn keys(&self) -> Seq<u64>;

    /// The set's internal invariant.
    spec fn inv(&self) -> bool;

    /// Whether `key` is in the set.
    fn contains(&self, key: &u64) -> (r: bool)
        requires
            self.inv(),
        ensures
            r == self.keys().contains(*key),
    ;

    /// Adds `key`; true iff it was absent (and is now present).
    fn insert(&mut self, key: u64) -> (r: bool)
        requires
            old(self).inv(),
        ensures
            final(self).inv(),
            r == !old(self).keys().contains(key),
            forall|k: u64| #[trigger] final(self).keys().contains(k) == (old(self).keys().contains(k) || k == key),
    ;

    /// Removes `key`; true iff it was present (and is now absent).
    fn remove(&mut self, key: &u64) -> (r: bool)
        requires
            old(self).inv(),
        ensures
            final(self).inv(),
            r == old(self).keys().contains(*key),
            forall|k: u64| #[trigger] final(self).keys().contains(k) == (old(self).keys().contains(k) && k != *key),
    ;
}

/// Applies `ops` to `set` in order and logs each operation with the result it returned;
/// the result recorded in each entry of `ops` is ignored. At every step the log and the
/// keys held agree with a plain set of keys that starts from the same keys.
pub fn replay<S: ConcurrentSet>(set: &mut S, ops: &Vec<Log>) -> (r: Vec<Log>)
    requires
        old(set).inv(),
    ensures
        final(set).inv(),
        r@ == run(old(set).keys().to_set(), ops@).1,
        final(set).keys().to_set() == run(old(set).keys().to_set(), ops@).0,
{
    let ghost s0 = set.keys().to_set();
    let mut out: Vec<Log> = Vec::new();
    let mut i: usize = 0;
    proof {
        assert(ops@.subrange(0, 0) =~= Seq::<Log>::empty());
    }
    while i < ops.len()
        invariant
            set.inv(),
            i <= ops@.len(),
            out@ == run(s0, ops@.subrange(0, i as int)).1,
            set.keys().to_set() == run(s0, ops@.subrange(0, i as int)).0,
        decreases ops@.len() - i,
    {
        let ghost before = set.keys().to_set();
        let op = ops[i];
        let l = match op {
            Log::Contains { key, .. } => Log::Contains { key, result: set.contains(&key) },
            Log::Insert { key, .. } => {
                let r = set.insert(key);
                Log::Insert { key, result: r }
            },
            Log::Remove { key, .. } => {
                let r = set.remove(&key);
                Log::Remove { key, result: r }
            },
        };
        out.push(l);
        proof {
            let pre = ops@.subrange(0, i as int);
            let now = ops@.subrange(0, i + 1);
            assert(now.drop_last() =~= pre);
            assert(now.last() == op);
            assert(set.keys().to_set() =~= step(before, op).0);
            assert(l == step(before, op).1);
        }
        i = i + 1;
    }
    proof {
        assert(ops@.subrange(0, i as int) =~= ops@);
    }
    out
}

} // verus!
