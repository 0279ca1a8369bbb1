//! Consistency of a log of set operations: every `contains` that saw a key present is
//! preceded in the log by a successful `insert` of that key somewhere, and no key was
//! removed successfully more often than it was inserted successfully.
use vstd::prelude::*;

verus! {

/// One logged operation on a set, with the key it was given and the result it returned.
#[derive(Clone, Copy, Debug, PartialEq, Eq, Structural)]
pub enum Log {
    Contains { key: u64, result: bool },
    Insert { key: u64, result: bool },
    Remove { key: u64, result: bool },
}

impl Log {
    pub open spec fn spec_key(&self) -> u64 {
        match *self {
            Log::Contains { key, .. } => key,
            Log::Insert { key, .. } => key,
            Log::Remove { key, .. } => key,
        }
    }

    /// The key the operation was given.
    pub fn key(&self) -> (r: u64)
        ensures
            r == self.spec_key(),
    {
        match *self {
            Log::Contains { key, .. } => key,
            Log::Insert { key, .. } => key,
            Log::Remove { key, .. } => key,
        }
    }
}

/// A successful insert of `k`.
pub open spec fn inserted(l: Log, k: u64) -> bool {
    l == (Log::Insert { key: k, result: true })
}

/// A successful remove of `k`.
pub open spec fn removed(l: Log, k: u64) -> bool {
    l == (Log::Remove { key: k, result: true })
}

/// The number of successful inserts of `k` in `s`.
pub open spec fn insert_count(s: Seq<Log>, k: u64) -> nat
    decreases s.len(),
{
    if s.len() == 0 {
        0
    } else {
        insert_count(s.drop_last(), k) + if inserted(s.last(), k) { 1nat } else { 0nat }
    }
}

/// The number of successful removes of `k` in `s`.
pub open spec fn remove_count(s: Seq<Log>, k: u64) -> nat
    decreases s.len(),
{
    if s.len() == 0 {
        0
    } else {
        remove_count(s.drop_last(), k) + if removed(s.last(), k) { 1nat } else { 0nat }
    }
}

/// What the log must satisfy for the key of entry `l`.
pub open spec fn entry_consistent(s: Seq<Log>, l: Log) -> bool {
    &&& l == (Log::Contains { key: l.spec_key(), result: true }) ==> insert_count(s, l.spec_key()) > 0
    &&& remove_count(s, l.spec_key()) <= insert_count(s, l.spec_key())
}

/// The combined log is consistent for every key it names.
pub open spec fn log_consistent(s: Seq<Log>) -> bool {
    forall|i: int| 0 <= i < s.len() ==> entry_consistent(s, #[trigger] s[i])
}

/// Counts the successful inserts (or, with `removes`, the successful removes) of `k`.
fn count_successes(logs: &Vec<Log>, k: u64, removes: bool) -> (r: usize)
    ensures
        r == if removes { remove_count(logs@, k) } else { insert_count(logs@, k) },
{
    let mut c: usize = 0;
    let mut i: usize = 0;
    while i < logs.len()
        invariant
            i <= logs@.len(),
            c <= i,
            c == if removes {
                remove_count(logs@.subrange(0, i as int), k)
            } else {
                insert_count(logs@.subrange(0, i as int), k)
            },
        decreases logs@.len() - i,
    {
        let l = logs[i];
        let hit = if removes {
            l == Log::Remove { key: k, result: true }
        } else {
            l == Log::Insert { key: k, result: true }
        };
        if hit {
            c = c + 1;
        }
        proof {
            assert(logs@.subrange(0, i + 1).drop_last() =~= logs@.subrange(0, i as int));
        }
        i = i + 1;
    }
    assert(logs@.subrange(0, i as int) =~= logs@);
    c
}

/// Whether the combined log of all threads is consistent.
pub fn logs_consistent(logs: &Vec<Log>) -> (r: bool)
    ensures
        r == log_consistent(logs@),
{
    let mut i: usize = 0;
    while i < logs.len()
        invariant
            i <= logs@.len(),
            forall|j: int| 0 <= j < i ==> entry_consistent(logs@, #[trigger] logs@[j]),
        decreases logs@.len() - i,
    {
        let l = logs[i];
        let k = l.key();
        let ins = count_successes(logs, k, false);
        let rem = count_successes(logs, k, true);
        if l == (Log::Contains { key: k, result: true }) && ins == 0 {
            assert(!entry_consistent(logs@, logs@[i as int]));
            return false;
        }
        if rem > ins {
            assert(!entry_consistent(logs@, logs@[i as int]));
            return false;
        }
        i = i + 1;
    }
    true
}

/// One operation applied to a set holding the keys `s`: the keys after it and the logged
/// entry, whose result is what `contains`, `insert` and `remove` of both sets return.
/// The result recorded in `op` itself is ignored.
pub open spec fn step(s: Set<u64>, op: Log) -> (Set<u64>, Log) {
    match op {
        Log::Contains { key, .. } => (s, Log::Contains { key, result: s.contains(key) }),
        Log::Insert { key, .. } => (s.insert(key), Log::Insert { key, result: !s.contains(key) }),
        Log::Remove { key, .. } => (s.remove(key), Log::Remove { key, result: s.contains(key) }),
    }
}

/// The keys and the log after applying `ops` in order, starting from the keys `s`.
pub open spec fn run(s: Set<u64>, ops: Seq<Log>) -> (Set<u64>, Seq<Log>)
    decreases ops.len(),
{
    if ops.len() == 0 {
        (s, Seq::empty())
    } else {
        let before = run(s, ops.drop_last());
        let next = step(before.0, ops.last());
        (next.0, before.1.push(next.1))
    }
}

proof fn lemma_counts_push(log: Seq<Log>, l: Log, k: u64)
    ensures
        insert_count(log.push(l), k) == insert_count(log, k) + if inserted(l, k) { 1nat } else { 0nat },
        remove_count(log.push(l), k) == remove_count(log, k) + if removed(l, k) { 1nat } else { 0nat },
{
    assert(log.push(l).drop_last() =~= log);
}

proof fn lemma_run_invariant(ops: Seq<Log>)
    ensures
        run(Set::empty(), ops).1.len() == ops.len(),
        forall|k: u64|
            #[trigger] insert_count(run(Set::empty(), ops).1, k) == remove_count(run(Set::empty(), ops).1, k)
                + if run(Set::empty(), ops).0.contains(k) { 1nat } else { 0nat },
        forall|i: int|
            0 <= i < ops.len() && #[trigger] run(Set::empty(), ops).1[i] == (Log::Contains {
                key: run(Set::empty(), ops).1[i].spec_key(),
                result: true,
            }) ==> insert_count(run(Set::empty(), ops).1, run(Set::empty(), ops).1[i].spec_key()) > 0,
    decreases ops.len(),
{
    if ops.len() > 0 {
        let pre = ops.drop_last();
        lemma_run_invariant(pre);
        let (s, log) = run(Set::empty(), pre);
        let (s2, l) = step(s, ops.last());
        let log2 = log.push(l);
        assert(run(Set::empty(), ops) == (s2, log2));
        assert forall|k: u64| #[trigger] insert_count(log2, k) == remove_count(log2, k)
            + if s2.contains(k) { 1nat } else { 0nat } by {
            lemma_counts_push(log, l, k);
            assert(insert_count(log, k) == remove_count(log, k) + if s.contains(k) { 1nat } else { 0nat });
        }
        assert forall|i: int|
            0 <= i < ops.len() && #[trigger] log2[i] == (Log::Contains { key: log2[i].spec_key(), result: true })
                implies insert_count(log2, log2[i].spec_key()) > 0 by {
            let k = log2[i].spec_key();
            lemma_counts_push(log, l, k);
            if i < pre.len() {
                assert(log2[i] == log[i]);
            } else {
                assert(log2[i] == l);
                assert(insert_count(log, k) == remove_count(log, k) + if s.contains(k) { 1nat } else { 0nat });
            }
        }
    }
}

/// Any log of operations applied one after another to a set, starting empty, is
/// consistent: a `contains` that saw a key has a successful `insert` of it in the log,
/// and no key is removed successfully more often than it is inserted successfully.
pub proof fn lemma_sequential_run_consistent(ops: Seq<Log>)
    ensures
        log_consistent(run(Set::empty(), ops).1),
{
    lemma_run_invariant(ops);
    let (s, log) = run(Set::empty(), ops);
    assert forall|i: int| 0 <= i < log.len() implies entry_consistent(log, #[trigger] log[i]) by {
        let k = log[i].spec_key();
        assert(insert_count(log, k) == remove_count(log, k) + if s.contains(k) { 1nat } else { 0nat });
    }
}

} // verus!
