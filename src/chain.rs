//! A key-ordered singly linked chain whose nodes live in an arena.
//!
//! Nodes are addressed by their index in the arena and a slot is never reused, so an
//! index held by a traversal never comes to name a different node. Each link carries a
//! deletion tag: the link of a node is tagged when the node is removed, and stays so.
use vstd::prelude::*;

verus! {

/// A link slot: the node it leads to (none at the end of the chain) and the deletion tag.
#[derive(Clone, Copy, PartialEq, Eq, Structural)]
pub struct Link {
    pub target: Option<usize>,
    pub tagged: bool,
}

/// One key and the link to its successor. A node's key never changes.
#[derive(Clone, Copy)]
struct Node {
    pub key: u64,
    pub next: Link,
}

/// The position of a mutation: the slot of the predecessor (`None` is the head slot)
/// and what that slot held when it was read.
#[derive(Clone, Copy)]
struct Cursor {
    pub prev: Option<usize>,
    pub curr: Link,
}

/// Keys in strictly ascending order, hence without duplicates.
pub open spec fn ascending(s: Seq<u64>) -> bool {
    forall|i: int, j: int| 0 <= i < j < s.len() ==> s[i] < s[j]
}

/// The untagged link that leads to `target`.
pub open spec fn live_link(target: Option<usize>) -> Link {
    Link { target, tagged: false }
}

/// The arena, the head slot, and (ghost) the indices of the reachable nodes in chain order.
pub struct Chain {
    nodes: Vec<Node>,
    head: Link,
    path: Ghost<Seq<usize>>,
}

impl Chain {
    /// The number of arena slots ever allocated.
    pub closed spec fn arena_len(&self) -> nat {
        self.nodes@.len()
    }

    /// The key of the node in slot `i`.
    pub closed spec fn key_at(&self, i: usize) -> u64 {
        self.nodes@[i as int].key
    }

    /// What the slot at `pos` holds: the head slot for `None`, else the link of node `pos`.
    pub closed spec fn link_at(&self, pos: Option<usize>) -> Link {
        match pos {
            None => self.head,
            Some(i) => self.nodes@[i as int].next,
        }
    }

    /// The link that the `n`-th reachable node must hold.
    spec fn succ_link(&self, n: int) -> Link {
        live_link(if n + 1 < self.path@.len() { Some(self.path@[n + 1]) } else { None })
    }

    /// The keys of the reachable nodes, in chain order.
    pub closed spec fn view(&self) -> Seq<u64> {
        Seq::new(self.path@.len(), |n: int| self.nodes@[self.path@[n] as int].key)
    }

    spec fn wf_head(&self) -> bool {
        self.head == live_link(if self.path@.len() == 0 { None } else { Some(self.path@[0]) })
    }

    spec fn wf_bounds(&self) -> bool {
        forall|n: int| 0 <= n < self.path@.len() ==> (#[trigger] self.path@[n]) < self.nodes@.len()
    }

    spec fn wf_links(&self) -> bool {
        forall|n: int|
            0 <= n < self.path@.len() ==> self.nodes@[#[trigger] self.path@[n] as int].next
                == self.succ_link(n)
    }

    spec fn wf_targets(&self) -> bool {
        forall|i: int|
            0 <= i < self.nodes@.len() ==> match (#[trigger] self.nodes@[i]).next.target {
                Some(t) => t < self.nodes@.len(),
                None => true,
            }
    }

    spec fn wf_untagged_reachable(&self) -> bool {
        forall|i: usize|
            i < self.nodes@.len() && !(#[trigger] self.nodes@[i as int]).next.tagged
                ==> self.path@.contains(i)
    }

    /// The chain is well formed: the head slot and every reachable node's link lead along
    /// the path, every link stays inside the arena, a node whose link is untagged is
    /// reachable, and the reachable keys are strictly ascending.
    #[verifier::opaque]
    pub closed spec fn wf(&self) -> bool {
        &&& self.wf_head()
        &&& self.wf_bounds()
        &&& self.wf_links()
        &&& self.wf_targets()
        &&& self.wf_untagged_reachable()
        &&& ascending(self.view())
    }

    /// A slot position that names the head or an allocated node.
    pub open spec fn valid_pos(&self, pos: Option<usize>) -> bool {
        match pos {
            None => true,
            Some(i) => i < self.arena_len(),
        }
    }

    /// `self` is a later state of `old`: no slot was freed and no key changed.
    pub open spec fn extends(&self, old: &Chain) -> bool {
        &&& old.arena_len() <= self.arena_len()
        &&& forall|i: usize| i < old.arena_len() ==> #[trigger] self.key_at(i) == old.key_at(i)
    }

    /// The slot at `pos` is where `key` is linked in: it is untagged, it is the head or
    /// belongs to a node with a smaller key, and it leads nowhere or to a larger key.
    pub open spec fn insert_slot(&self, pos: Option<usize>, key: u64) -> bool {
        &&& !self.link_at(pos).tagged
        &&& match pos {
            Some(i) => self.key_at(i) < key,
            None => true,
        }
        &&& match self.link_at(pos).target {
            Some(j) => key < self.key_at(j),
            None => true,
        }
    }

    /// When `linked`, the slot where `key` is linked in now leads to the new node in the
    /// first fresh arena slot; every other slot of `old` keeps its link.
    pub open spec fn insert_frame(&self, old: &Chain, key: u64, linked: bool) -> bool {
        forall|pos: Option<usize>|
            old.valid_pos(pos) ==> #[trigger] self.link_at(pos) == if linked && old.insert_slot(
                pos,
                key,
            ) {
                live_link(Some(old.arena_len() as usize))
            } else {
                old.link_at(pos)
            }
    }

    /// Every slot of `old` keeps its link, except untagged slots that belong to a node
    /// holding `key` or lead to one.
    pub open spec fn remove_frame(&self, old: &Chain, key: u64) -> bool {
        forall|pos: Option<usize>|
            old.valid_pos(pos) ==> #[trigger] self.link_at(pos) == old.link_at(pos) || (
            !old.link_at(pos).tagged && (match pos {
                Some(i) => old.key_at(i) == key,
                None => false,
            } || match old.link_at(pos).target {
                Some(j) => old.key_at(j) == key,
                None => false,
            }))
    }

    /// Every node of `old` that held `key` under an untagged link now has a tagged link.
    pub open spec fn remove_tags(&self, old: &Chain, key: u64) -> bool {
        forall|i: usize|
            i < old.arena_len() && old.key_at(i) == key && !old.link_at(Some(i)).tagged
                ==> #[trigger] self.link_at(Some(i)).tagged
    }

    /// The empty chain.
    pub fn new() -> (r: Self)
        ensures
            r.wf(),
            r@ == Seq::<u64>::empty(),
            r.arena_len() == 0,
    {
        let r = Chain { nodes: Vec::new(), head: Link { target: None, tagged: false }, path: Ghost(Seq::empty()) };
        assert(r@ =~= Seq::<u64>::empty());
        reveal(Chain::wf);
        r
    }

    proof fn lemma_wf_unfold(&self)
        requires
            self.wf(),
        ensures
            self.wf_head(),
            self.wf_bounds(),
            self.wf_links(),
            self.wf_targets(),
            self.wf_untagged_reachable(),
            ascending(self@),
            self.path@.no_duplicates(),
    {
        reveal(Chain::wf);
        assert forall|a: int, b: int|
            0 <= a < self.path@.len() && 0 <= b < self.path@.len() && a != b implies self.path@[a]
            != self.path@[b] by {
            if a < b {
                assert(self@[a] < self@[b]);
            } else {
                assert(self@[b] < self@[a]);
            }
        }
    }

    /// Reads the slot at `pos`.
    pub fn link(&self, pos: Option<usize>) -> (r: Link)
        requires
            self.wf(),
            self.valid_pos(pos),
        ensures
            r == self.link_at(pos),
            match r.target {
                Some(t) => t < self.arena_len(),
                None => true,
            },
    {
        proof {
            self.lemma_wf_unfold();
        }
        match pos {
            None => {
                proof {
                    if self.path@.len() > 0 {
                        assert(self.path@[0] < self.nodes@.len());
                    }
                }
                self.head
            },
            Some(i) => {
                assert(match self.nodes@[i as int].next.target {
                    Some(t) => t < self.nodes@.len(),
                    None => true,
                });
                self.nodes[i].next
            },
        }
    }

    /// The key of the node in slot `i`.
    pub fn key(&self, i: usize) -> (r: u64)
        requires
            i < self.arena_len(),
        ensures
            r == self.key_at(i),
    {
        self.nodes[i].key
    }

    /// Moves a cursor from the head to the first reachable node whose key is not below
    /// `key`. The returned cursor holds the slot that leads there; the flag says whether
    /// that node holds `key`. The ghost result is the node's place in the chain.
    #[verifier::rlimit(40)]
    fn find(&self, key: u64) -> (r: (bool, Cursor, Ghost<int>))
        requires
            self.wf(),
        ensures
            0 <= r.2@ <= self@.len(),
            forall|i: int| 0 <= i < r.2@ ==> self@[i] < key,
            r.2@ < self@.len() ==> self@[r.2@] >= key,
            r.0 == (r.2@ < self@.len() && self@[r.2@] == key),
            r.1.prev == (if r.2@ == 0 { None } else { Some(self.path@[r.2@ - 1]) }),
            r.1.curr == self.link_at(r.1.prev),
            r.1.curr == live_link(
                if r.2@ < self@.len() { Some(self.path@[r.2@]) } else { None },
            ),
    {
        proof {
            self.lemma_wf_unfold();
        }
        let mut prev: Option<usize> = None;
        let mut curr: Link = self.head;
        let ghost mut n: int = 0;
        loop
            invariant
                self.wf_bounds(),
                self.wf_links(),
                0 <= n <= self@.len(),
                forall|i: int| 0 <= i < n ==> self@[i] < key,
                prev == (if n == 0 { None } else { Some(self.path@[n - 1]) }),
                curr == self.link_at(prev),
                curr == live_link(if n < self@.len() { Some(self.path@[n]) } else { None }),
            decreases self@.len() - n,
        {
            match curr.target {
                None => {
                    return (false, Cursor { prev, curr }, Ghost(n));
                },
                Some(c) => {
                    assert(self.path@[n] < self.nodes@.len());
                    let node = self.nodes[c];
                    if node.key < key {
                        assert(self.nodes@[self.path@[n] as int].next == self.succ_link(n));
                        prev = Some(c);
                        curr = node.next;
                        proof {
                            n = n + 1;
                        }
                    } else {
                        return (node.key == key, Cursor { prev, curr }, Ghost(n));
                    }
                },
            }
        }
    }

    /// Whether a reachable node holds `key`.
    pub fn contains(&self, key: u64) -> (r: bool)
        requires
            self.wf(),
        ensures
            r == self@.contains(key),
    {
        let (found, _cursor, Ghost(n)) = self.find(key);
        proof {
            if found {
                assert(self@[n] == key);
            } else {
                self.lemma_absent(key, n);
            }
        }
        found
    }

    proof fn lemma_absent(&self, key: u64, n: int)
        requires
            self.wf(),
            0 <= n <= self@.len(),
            forall|i: int| 0 <= i < n ==> self@[i] < key,
            n < self@.len() ==> self@[n] > key,
        ensures
            !self@.contains(key),
    {
        self.lemma_wf_unfold();
        assert forall|i: int| 0 <= i < self@.len() implies self@[i] != key by {
            if i > n {
                assert(self@[n] < self@[i]);
            }
        }
    }

    proof fn lemma_untagged_reachable_key(&self, i: usize)
        requires
            self.wf(),
            i < self.arena_len(),
            !self.link_at(Some(i)).tagged,
        ensures
            self@.contains(self.key_at(i)),
    {
        self.lemma_wf_unfold();
        assert(self.path@.contains(i));
        let m = choose|m: int| 0 <= m < self.path@.len() && self.path@[m] == i;
        assert(self@[m] == self.key_at(i));
    }

    /// Links a new node holding `key` at its place in the order, unless a reachable node
    /// already holds `key`. The existence check and the link update use the one cursor.
    pub fn insert(&mut self, key: u64) -> (r: bool)
        requires
            old(self).wf(),
        ensures
            final(self).wf(),
            final(self).extends(old(self)),
            final(self).arena_len() == old(self).arena_len() + if r { 1nat } else { 0nat },
            final(self).insert_frame(old(self), key, r),
            r == !old(self)@.contains(key),
            forall|k: u64| #[trigger] final(self)@.contains(k) == (old(self)@.contains(k) || k == key),
    {
        let (found, cursor, Ghost(n)) = self.find(key);
        if found {
            proof {
                assert(self@[n] == key);
            }
            return false;
        }
        proof {
            self.lemma_absent(key, n);
            self.lemma_wf_unfold();
            if n > 0 {
                assert(self.path@[n - 1] < self.nodes@.len());
            }
        }
        let ghost pre = *self;
        let idx = self.nodes.len();
        self.nodes.push(Node { key, next: cursor.curr });
        assert(forall|i: usize| i < pre.nodes@.len() ==> self.nodes@[i as int] == pre.nodes@[i as int]);
        self.set_link(cursor.prev, Link { target: Some(idx), tagged: false });
        self.path = Ghost(pre.path@.insert(n, idx));
        proof {
            assert(self.nodes@[idx as int] == (Node { key, next: cursor.curr }));
            Self::lemma_insert(pre, *self, key, n, cursor.prev, idx);
        }
        true
    }

    /// Removes the reachable node holding `key`, if there is one: its link is tagged
    /// (logical deletion), then its predecessor's slot is rewritten to its successor
    /// (physical unlink). The node's slot stays allocated, so a traversal that still holds
    /// its index reads a tagged link there.
    pub fn remove(&mut self, key: u64) -> (r: bool)
        requires
            old(self).wf(),
        ensures
            final(self).wf(),
            final(self).extends(old(self)),
            final(self).arena_len() == old(self).arena_len(),
            final(self).remove_frame(old(self), key),
            final(self).remove_tags(old(self), key),
            r == old(self)@.contains(key),
            forall|k: u64| #[trigger] final(self)@.contains(k) == (old(self)@.contains(k) && k != key),
    {
        let (found, cursor, Ghost(n)) = self.find(key);
        if !found {
            proof {
                self.lemma_absent(key, n);
                assert forall|i: usize|
                    i < self.arena_len() && self.key_at(i) == key && !self.link_at(Some(i)).tagged
                    implies #[trigger] self.link_at(Some(i)).tagged by {
                    self.lemma_untagged_reachable_key(i);
                }
            }
            return false;
        }
        proof {
            self.lemma_wf_unfold();
        }
        let ghost pre = *self;
        let c = match cursor.curr.target {
            Some(c) => c,
            None => {
                return false;
            },
        };
        assert(pre.path@[n] < pre.nodes@.len());
        let succ = self.nodes[c].next;
        self.set_link(Some(c), Link { target: succ.target, tagged: true });
        assert(cursor.prev != Some(c)) by {
            if n > 0 {
                assert(pre.path@[n - 1] != pre.path@[n]);
            }
        }
        let ghost mid = *self;
        self.set_link(cursor.prev, succ);
        self.path = Ghost(pre.path@.remove(n));
        proof {
            assert(c == pre.path@[n]);
            assert(self.nodes@[c as int] == mid.nodes@[c as int]);
            assert(forall|i: usize|
                i < pre.nodes@.len() && cursor.prev != Some(i) && i != c
                    ==> #[trigger] self.nodes@[i as int] == pre.nodes@[i as int]);
            assert(Self::remove_step(pre, *self, n, cursor.prev));
            Self::lemma_remove(pre, *self, n, cursor.prev);
            assert(pre@[n] == key);
        }
        true
    }

    /// The reachable keys form a strictly ascending sequence, so none occurs twice.
    pub proof fn lemma_ascending(&self)
        requires
            self.wf(),
        ensures
            ascending(self@),
            self@.no_duplicates(),
    {
        self.lemma_wf_unfold();
        assert forall|a: int, b: int| 0 <= a < self@.len() && 0 <= b < self@.len() && a != b implies self@[a]
            != self@[b] by {
            if a < b {
                assert(self@[a] < self@[b]);
            } else {
                assert(self@[b] < self@[a]);
            }
        }
    }

    /// The head slot holds an untagged link.
    pub proof fn lemma_live_head(&self)
        requires
            self.wf(),
        ensures
            !self.link_at(None).tagged,
    {
        self.lemma_wf_unfold();
    }

    /// An untagged link read at `pos` leads to a reachable node: that node's own link is
    /// untagged, and when `pos` is a node, the key it leads to is greater than that node's.
    pub proof fn lemma_live_step(&self, pos: Option<usize>, c: usize)
        requires
            self.wf(),
            self.valid_pos(pos),
            !self.link_at(pos).tagged,
            self.link_at(pos).target == Some(c),
        ensures
            c < self.arena_len(),
            !self.link_at(Some(c)).tagged,
            match pos {
                Some(p) => self.key_at(p) < self.key_at(c),
                None => true,
            },
            self@.contains(self.key_at(c)),
            forall|k: u64|
                #[trigger] self@.contains(k) && (match pos {
                    Some(p) => self.key_at(p) < k,
                    None => true,
                }) ==> self.key_at(c) <= k,
    {
        self.lemma_wf_unfold();
        let path = self.path@;
        let m: int = match pos {
            None => -1,
            Some(p) => {
                assert(path.contains(p));
                choose|m: int| 0 <= m < path.len() && path[m] == p
            },
        };
        if m >= 0 {
            assert(self.nodes@[path[m] as int].next == self.succ_link(m));
        }
        assert(path[m + 1] == c);
        assert(c < self.nodes@.len());
        assert(self.nodes@[path[m + 1] as int].next == self.succ_link(m + 1));
        if m >= 0 {
            assert(self@[m] < self@[m + 1]);
        }
        assert(self@[m + 1] == self.key_at(c));
        assert forall|k: u64|
            #[trigger] self@.contains(k) && (match pos {
                Some(p) => self.key_at(p) < k,
                None => true,
            }) implies self.key_at(c) <= k by {
            let j = choose|j: int| 0 <= j < self@.len() && self@[j] == k;
            if j <= m {
                if j < m {
                    assert(self@[j] < self@[m]);
                }
            } else if j > m + 1 {
                assert(self@[m + 1] < self@[j]);
            }
        }
    }

    /// An untagged link read at `pos` that leads nowhere ends the chain: no reachable key
    /// lies above the key of the node at `pos`, and none at all when `pos` is the head.
    pub proof fn lemma_live_end(&self, pos: Option<usize>)
        requires
            self.wf(),
            self.valid_pos(pos),
            !self.link_at(pos).tagged,
            self.link_at(pos).target == None::<usize>,
        ensures
            forall|k: u64|
                #[trigger] self@.contains(k) ==> match pos {
                    Some(p) => k <= self.key_at(p),
                    None => false,
                },
    {
        self.lemma_wf_unfold();
        let path = self.path@;
        match pos {
            None => {
                assert(path.len() == 0);
            },
            Some(p) => {
                assert(path.contains(p));
                let m = choose|m: int| 0 <= m < path.len() && path[m] == p;
                assert(self.nodes@[path[m] as int].next == self.succ_link(m));
                assert(m + 1 == path.len());
                assert forall|k: u64| #[trigger] self@.contains(k) implies k <= self.key_at(p) by {
                    let j = choose|j: int| 0 <= j < self@.len() && self@[j] == k;
                    if j < m {
                        assert(self@[j] < self@[m]);
                    }
                }
            },
        }
    }

    /// The reachable keys, in chain order.
    pub fn keys(&self) -> (r: Vec<u64>)
        requires
            self.wf(),
        ensures
            r@ == self@,
    {
        proof {
            self.lemma_wf_unfold();
        }
        let mut out: Vec<u64> = Vec::new();
        let mut curr: Link = self.head;
        let ghost mut n: int = 0;
        loop
            invariant
                self.wf_bounds(),
                self.wf_links(),
                0 <= n <= self@.len(),
                out@ == self@.subrange(0, n),
                curr == live_link(if n < self@.len() { Some(self.path@[n]) } else { None }),
            decreases self@.len() - n,
        {
            match curr.target {
                None => {
                    assert(self@.subrange(0, n) =~= self@);
                    return out;
                },
                Some(c) => {
                    assert(self.path@[n] < self.nodes@.len());
                    assert(self.nodes@[self.path@[n] as int].next == self.succ_link(n));
                    let node = self.nodes[c];
                    out.push(node.key);
                    curr = node.next;
                    proof {
                        assert(out@ =~= self@.subrange(0, n + 1));
                        n = n + 1;
                    }
                },
            }
        }
    }

    /// `post` is `pre` with a new node in slot `idx`, holding `key`, linked in at place `n`
    /// through the slot `prev`.
    spec fn insert_step(pre: Chain, post: Chain, key: u64, n: int, prev: Option<usize>, idx: usize) -> bool {
        &&& 0 <= n <= pre.path@.len()
        &&& prev == (if n == 0 { None } else { Some(pre.path@[n - 1]) })
        &&& idx == pre.nodes@.len()
        &&& post.nodes@.len() == pre.nodes@.len() + 1
        &&& post.nodes@[idx as int] == (Node {
            key,
            next: live_link(if n < pre.path@.len() { Some(pre.path@[n]) } else { None }),
        })
        &&& post.link_at(prev) == live_link(Some(idx))
        &&& forall|i: int|
            0 <= i < pre.nodes@.len() ==> (#[trigger] post.nodes@[i]).key == pre.nodes@[i].key
        &&& forall|i: usize|
            i < pre.nodes@.len() && prev != Some(i) ==> #[trigger] post.nodes@[i as int]
                == pre.nodes@[i as int]
        &&& (prev != None::<usize> ==> post.head == pre.head)
        &&& post.path@ == pre.path@.insert(n, idx)
    }

    /// `post` is `pre` with the node at place `n` tagged and its predecessor's slot `prev`
    /// rewritten to the node's successor.
    spec fn remove_step(pre: Chain, post: Chain, n: int, prev: Option<usize>) -> bool {
        let c = pre.path@[n];
        &&& 0 <= n < pre.path@.len()
        &&& prev == (if n == 0 { None } else { Some(pre.path@[n - 1]) })
        &&& post.nodes@.len() == pre.nodes@.len()
        &&& post.nodes@[c as int] == (Node {
            key: pre.nodes@[c as int].key,
            next: Link { target: pre.nodes@[c as int].next.target, tagged: true },
        })
        &&& post.link_at(prev) == pre.nodes@[c as int].next
        &&& forall|i: int|
            0 <= i < pre.nodes@.len() ==> (#[trigger] post.nodes@[i]).key == pre.nodes@[i].key
        &&& forall|i: usize|
            i < pre.nodes@.len() && prev != Some(i) && i != c ==> #[trigger] post.nodes@[i as int]
                == pre.nodes@[i as int]
        &&& (prev != None::<usize> ==> post.head == pre.head)
        &&& post.path@ == pre.path@.remove(n)
    }

    proof fn lemma_ascending_insert(s: Seq<u64>, n: int, key: u64)
        requires
            ascending(s),
            0 <= n <= s.len(),
            forall|i: int| 0 <= i < n ==> s[i] < key,
            n < s.len() ==> s[n] > key,
        ensures
            ascending(s.insert(n, key)),
            forall|k: u64| #[trigger] s.insert(n, key).contains(k) == (s.contains(k) || k == key),
    {
        s.insert_ensures(n, key);
        let t = s.insert(n, key);
        assert forall|i: int, j: int| 0 <= i < j < t.len() implies t[i] < t[j] by {
            if j < n {
            } else if j == n {
            } else if i < n {
                assert(s[i] < s[j - 1]);
            } else if i == n {
                assert(s[n] <= s[j - 1]);
            } else {
                assert(s[i - 1] < s[j - 1]);
            }
        }
        assert forall|k: u64| #[trigger] t.contains(k) == (s.contains(k) || k == key) by {
            if t.contains(k) {
                let j = choose|j: int| 0 <= j < t.len() && t[j] == k;
                if j < n {
                    assert(s[j] == k);
                } else if j > n {
                    assert(s[j - 1] == k);
                }
            }
            if s.contains(k) {
                let j = choose|j: int| 0 <= j < s.len() && s[j] == k;
                if j < n {
                    assert(t[j] == k);
                } else {
                    assert(t[j + 1] == k);
                }
            }
            if k == key {
                assert(t[n] == k);
            }
        }
    }

    proof fn lemma_ascending_remove(s: Seq<u64>, n: int)
        requires
            ascending(s),
            0 <= n < s.len(),
        ensures
            ascending(s.remove(n)),
            forall|k: u64| #[trigger] s.remove(n).contains(k) == (s.contains(k) && k != s[n]),
    {
        s.remove_ensures(n);
        let t = s.remove(n);
        assert forall|i: int, j: int| 0 <= i < j < t.len() implies t[i] < t[j] by {
            if j < n {
            } else if i < n {
                assert(s[i] < s[j + 1]);
            } else {
                assert(s[i + 1] < s[j + 1]);
            }
        }
        assert forall|k: u64| #[trigger] t.contains(k) == (s.contains(k) && k != s[n]) by {
            if t.contains(k) {
                let j = choose|j: int| 0 <= j < t.len() && t[j] == k;
                if j < n {
                    assert(s[j] == k);
                    assert(s[j] < s[n]);
                } else {
                    assert(s[j + 1] == k);
                    assert(s[n] < s[j + 1]);
                }
            }
            if s.contains(k) && k != s[n] {
                let j = choose|j: int| 0 <= j < s.len() && s[j] == k;
                if j < n {
                    assert(t[j] == k);
                } else {
                    assert(t[j - 1] == k);
                }
            }
        }
    }

    proof fn lemma_insert_links(pre: Chain, post: Chain, key: u64, n: int, prev: Option<usize>, idx: usize)
        requires
            pre.wf_head(),
            pre.wf_bounds(),
            pre.wf_links(),
            pre.path@.no_duplicates(),
            Self::insert_step(pre, post, key, n, prev, idx),
        ensures
            post.wf_head(),
            post.wf_bounds(),
            post.wf_links(),
    {
        pre.path@.insert_ensures(n, idx);
        let p = pre.path@;
        let q = post.path@;
        assert forall|m: int| 0 <= m < q.len() implies (#[trigger] q[m]) < post.nodes@.len() by {
            if m < n {
                assert(p[m] < pre.nodes@.len());
            } else if m > n {
                assert(p[m - 1] < pre.nodes@.len());
            }
        }
        assert forall|m: int| 0 <= m < q.len() implies post.nodes@[#[trigger] q[m] as int].next
            == post.succ_link(m) by {
            if m < n - 1 {
                assert(q[m] == p[m]);
                assert(p[m] != p[n - 1]);
                assert(p[m] < pre.nodes@.len());
                assert(post.nodes@[p[m] as int] == pre.nodes@[p[m] as int]);
                assert(pre.nodes@[p[m] as int].next == pre.succ_link(m));
            } else if m == n - 1 {
            } else if m == n {
            } else {
                assert(q[m] == p[m - 1]);
                assert(n == 0 || p[m - 1] != p[n - 1]);
                assert(p[m - 1] < pre.nodes@.len());
                assert(post.nodes@[p[m - 1] as int] == pre.nodes@[p[m - 1] as int]);
                assert(pre.nodes@[p[m - 1] as int].next == pre.succ_link(m - 1));
            }
        }
    }

    proof fn lemma_insert_arena(pre: Chain, post: Chain, key: u64, n: int, prev: Option<usize>, idx: usize)
        requires
            pre.wf_bounds(),
            pre.wf_targets(),
            pre.wf_untagged_reachable(),
            Self::insert_step(pre, post, key, n, prev, idx),
        ensures
            post.wf_targets(),
            post.wf_untagged_reachable(),
    {
        pre.path@.insert_ensures(n, idx);
        let p = pre.path@;
        let q = post.path@;
        if n < p.len() {
            assert(p[n] < pre.nodes@.len());
        }
        assert forall|i: usize|
            i < post.nodes@.len() && !(#[trigger] post.nodes@[i as int]).next.tagged implies q.contains(
            i,
        ) by {
            if i == idx {
                assert(q[n] == idx);
            } else if prev == Some(i) {
                assert(q[n - 1] == i);
            } else {
                assert(pre.nodes@[i as int] == post.nodes@[i as int]);
                assert(p.contains(i));
                let m = choose|m: int| 0 <= m < p.len() && p[m] == i;
                if m < n {
                    assert(q[m] == i);
                } else {
                    assert(q[m + 1] == i);
                }
            }
        }
        assert forall|i: int|
            0 <= i < post.nodes@.len() implies match (#[trigger] post.nodes@[i]).next.target {
            Some(t) => t < post.nodes@.len(),
            None => true,
        } by {
            if i < pre.nodes@.len() && prev != Some(i as usize) {
                assert(pre.nodes@[i] == post.nodes@[i]);
                assert(match pre.nodes@[i].next.target {
                    Some(t) => t < pre.nodes@.len(),
                    None => true,
                });
            }
        }
    }

    proof fn lemma_insert(pre: Chain, post: Chain, key: u64, n: int, prev: Option<usize>, idx: usize)
        requires
            pre.wf(),
            0 <= n <= pre@.len(),
            forall|i: int| 0 <= i < n ==> pre@[i] < key,
            n < pre@.len() ==> pre@[n] > key,
            Self::insert_step(pre, post, key, n, prev, idx),
        ensures
            post.wf(),
            post.extends(&pre),
            post.arena_len() == pre.arena_len() + 1,
            post.insert_frame(&pre, key, true),
            forall|k: u64| #[trigger] post@.contains(k) == (pre@.contains(k) || k == key),
    {
        pre.path@.insert_ensures(n, idx);
        pre.lemma_wf_unfold();
        Self::lemma_insert_links(pre, post, key, n, prev, idx);
        Self::lemma_insert_arena(pre, post, key, n, prev, idx);
        let p = pre.path@;
        assert forall|m: int| 0 <= m < post@.len() implies post@[m] == pre@.insert(n, key)[m] by {
            if m < n {
                assert(p[m] < pre.nodes@.len());
            } else if m > n {
                assert(p[m - 1] < pre.nodes@.len());
            }
        }
        assert(post@ =~= pre@.insert(n, key));
        pre@.insert_ensures(n, key);
        Self::lemma_ascending_insert(pre@, n, key);
        assert forall|pos: Option<usize>|
            pre.valid_pos(pos) implies #[trigger] post.link_at(pos) == if pre.insert_slot(pos, key) {
                live_link(Some(pre.arena_len() as usize))
            } else {
                pre.link_at(pos)
            } by {
            if pos == prev {
                if n == 0 {
                } else {
                    assert(pre.nodes@[p[n - 1] as int].next == pre.succ_link(n - 1));
                    assert(pre.key_at(p[n - 1]) == pre@[n - 1]);
                }
                if n < p.len() {
                    assert(pre.key_at(p[n]) == pre@[n]);
                }
            } else {
                match pos {
                    None => {
                        assert(pre.key_at(p[0]) == pre@[0]);
                    },
                    Some(i) => {
                        assert(post.nodes@[i as int] == pre.nodes@[i as int]);
                        if !pre.link_at(pos).tagged {
                            assert(p.contains(i));
                            let m = choose|m: int| 0 <= m < p.len() && p[m] == i;
                            assert(pre.key_at(i) == pre@[m]);
                            assert(pre.nodes@[p[m] as int].next == pre.succ_link(m));
                            if m < n - 1 {
                                assert(pre.key_at(p[m + 1]) == pre@[m + 1]);
                            } else if m == n - 1 {
                                assert(p[m] == p[n - 1]);
                            } else if m > n {
                                assert(pre@[n] < pre@[m]);
                            }
                        }
                    },
                }
            }
        }
        reveal(Chain::wf);
        assert forall|i: usize| i < pre.arena_len() implies #[trigger] post.key_at(i) == pre.key_at(i) by {
            assert(post.nodes@[i as int].key == pre.nodes@[i as int].key);
        }
    }

    proof fn lemma_remove_links(pre: Chain, post: Chain, n: int, prev: Option<usize>)
        requires
            pre.wf_head(),
            pre.wf_bounds(),
            pre.wf_links(),
            pre.path@.no_duplicates(),
            Self::remove_step(pre, post, n, prev),
        ensures
            post.wf_head(),
            post.wf_bounds(),
            post.wf_links(),
    {
        pre.path@.remove_ensures(n);
        let p = pre.path@;
        let q = post.path@;
        assert(pre.nodes@[p[n] as int].next == pre.succ_link(n));
        assert forall|m: int| 0 <= m < q.len() implies (#[trigger] q[m]) < post.nodes@.len() by {
            if m < n {
                assert(p[m] < pre.nodes@.len());
            } else {
                assert(p[m + 1] < pre.nodes@.len());
            }
        }
        assert forall|m: int| 0 <= m < q.len() implies post.nodes@[#[trigger] q[m] as int].next
            == post.succ_link(m) by {
            if m < n - 1 {
                assert(q[m] == p[m]);
                assert(p[m] != p[n - 1]);
                assert(p[m] != p[n]);
                assert(p[m] < pre.nodes@.len());
                assert(post.nodes@[p[m] as int] == pre.nodes@[p[m] as int]);
                assert(pre.nodes@[p[m] as int].next == pre.succ_link(m));
            } else if m == n - 1 {
            } else {
                assert(q[m] == p[m + 1]);
                assert(p[m + 1] != p[n]);
                assert(n == 0 || p[m + 1] != p[n - 1]);
                assert(p[m + 1] < pre.nodes@.len());
                assert(post.nodes@[p[m + 1] as int] == pre.nodes@[p[m + 1] as int]);
                assert(pre.nodes@[p[m + 1] as int].next == pre.succ_link(m + 1));
            }
        }
    }

    proof fn lemma_remove_arena(pre: Chain, post: Chain, n: int, prev: Option<usize>)
        requires
            pre.wf_bounds(),
            pre.wf_targets(),
            pre.wf_untagged_reachable(),
            pre.path@.no_duplicates(),
            Self::remove_step(pre, post, n, prev),
        ensures
            post.wf_targets(),
            post.wf_untagged_reachable(),
    {
        pre.path@.remove_ensures(n);
        let p = pre.path@;
        let q = post.path@;
        let c = p[n];
        assert(c < pre.nodes@.len());
        assert forall|i: usize|
            i < post.nodes@.len() && !(#[trigger] post.nodes@[i as int]).next.tagged implies q.contains(
            i,
        ) by {
            if prev == Some(i) {
                assert(q[n - 1] == i);
            } else {
                assert(i != c);
                assert(pre.nodes@[i as int] == post.nodes@[i as int]);
                assert(p.contains(i));
                let m = choose|m: int| 0 <= m < p.len() && p[m] == i;
                if m < n {
                    assert(q[m] == i);
                } else {
                    assert(q[m - 1] == i);
                }
            }
        }
        assert forall|i: int|
            0 <= i < post.nodes@.len() implies match (#[trigger] post.nodes@[i]).next.target {
            Some(t) => t < post.nodes@.len(),
            None => true,
        } by {
            assert(match pre.nodes@[i].next.target {
                Some(t) => t < pre.nodes@.len(),
                None => true,
            });
            assert(match pre.nodes@[c as int].next.target {
                Some(t) => t < pre.nodes@.len(),
                None => true,
            });
        }
    }

    proof fn lemma_remove(pre: Chain, post: Chain, n: int, prev: Option<usize>)
        requires
            pre.wf(),
            Self::remove_step(pre, post, n, prev),
        ensures
            post.wf(),
            post.extends(&pre),
            post.arena_len() == pre.arena_len(),
            post.remove_frame(&pre, pre@[n]),
            post.remove_tags(&pre, pre@[n]),
            forall|k: u64| #[trigger] post@.contains(k) == (pre@.contains(k) && k != pre@[n]),
    {
        pre.path@.remove_ensures(n);
        pre.lemma_wf_unfold();
        Self::lemma_remove_links(pre, post, n, prev);
        Self::lemma_remove_arena(pre, post, n, prev);
        let p = pre.path@;
        assert forall|m: int| 0 <= m < post@.len() implies post@[m] == pre@.remove(n)[m] by {
            if m < n {
                assert(p[m] < pre.nodes@.len());
            } else {
                assert(p[m + 1] < pre.nodes@.len());
            }
        }
        assert(post@ =~= pre@.remove(n));
        pre@.remove_ensures(n);
        Self::lemma_ascending_remove(pre@, n);
        let c = p[n];
        assert(pre.key_at(c) == pre@[n]);
        assert(pre.nodes@[c as int].next == pre.succ_link(n));
        assert forall|pos: Option<usize>|
            pre.valid_pos(pos) implies #[trigger] post.link_at(pos) == pre.link_at(pos) || (
            !pre.link_at(pos).tagged && (match pos {
                Some(i) => pre.key_at(i) == pre@[n],
                None => false,
            } || match pre.link_at(pos).target {
                Some(j) => pre.key_at(j) == pre@[n],
                None => false,
            })) by {
            if pos == prev {
                if n > 0 {
                    assert(pre.nodes@[p[n - 1] as int].next == pre.succ_link(n - 1));
                }
            } else if pos == Some(c) {
            } else {
                match pos {
                    None => {},
                    Some(i) => {
                        assert(post.nodes@[i as int] == pre.nodes@[i as int]);
                    },
                }
            }
        }
        assert forall|i: usize|
            i < pre.arena_len() && pre.key_at(i) == pre@[n] && !pre.link_at(Some(i)).tagged
            implies #[trigger] post.link_at(Some(i)).tagged by {
            assert(p.contains(i));
            let m = choose|m: int| 0 <= m < p.len() && p[m] == i;
            assert(pre@[m] == pre.key_at(i));
            if m < n {
                assert(pre@[m] < pre@[n]);
            } else if m > n {
                assert(pre@[n] < pre@[m]);
            }
        }
        reveal(Chain::wf);
        assert forall|i: usize| i < pre.arena_len() implies #[trigger] post.key_at(i) == pre.key_at(i) by {
            assert(post.nodes@[i as int].key == pre.nodes@[i as int].key);
        }
    }

    /// Stores `l` into the slot at `pos`; every other slot, every key and the path stay.
    fn set_link(&mut self, pos: Option<usize>, l: Link)
        requires
            old(self).valid_pos(pos),
        ensures
            final(self).path@ == old(self).path@,
            final(self).nodes@.len() == old(self).nodes@.len(),
            final(self).link_at(pos) == l,
            forall|i: int|
                0 <= i < old(self).nodes@.len() ==> (#[trigger] final(self).nodes@[i]).key
                    == old(self).nodes@[i].key,
            forall|i: usize|
                i < old(self).nodes@.len() && pos != Some(i) ==> #[trigger] final(self).nodes@[i as int]
                    == old(self).nodes@[i as int],
            pos != None::<usize> ==> final(self).head == old(self).head,
    {
        match pos {
            None => {
                self.head = l;
            },
            Some(i) => {
                let mut node = self.nodes[i];
                node.next = l;
                self.nodes.set(i, node);
            },
        }
    }
}

/// Two strictly ascending key sequences that hold the same keys are equal: the state of a
/// set is fixed by which keys it holds, so replaying operations on it and on a plain set
/// of keys gives the same results at every step.
pub proof fn lemma_ascending_determined(a: Seq<u64>, b: Seq<u64>)
    requires
        ascending(a),
        ascending(b),
        forall|x: u64| #[trigger] a.contains(x) == b.contains(x),
    ensures
        a == b,
    decreases a.len(),
{
    if a.len() == 0 {
        if b.len() > 0 {
            assert(b.contains(b[0]));
            assert(a.contains(b[0]));
        }
        assert(a =~= b);
    } else {
        assert(a.contains(a[0]));
        assert(b.len() > 0);
        assert(b.contains(b[0]));
        assert(a.contains(b[0]));
        let j = choose|j: int| 0 <= j < b.len() && b[j] == a[0];
        let i = choose|i: int| 0 <= i < a.len() && a[i] == b[0];
        if j > 0 {
            assert(b[0] < b[j]);
            if i > 0 {
                assert(a[0] < a[i]);
            }
        }
        assert(a[0] == b[0]);
        let ta = a.drop_first();
        let tb = b.drop_first();
        assert forall|x: u64| #[trigger] ta.contains(x) == tb.contains(x) by {
            if ta.contains(x) {
                let k = choose|k: int| 0 <= k < ta.len() && ta[k] == x;
                assert(a[0] < a[k + 1]);
                assert(a.contains(x));
                assert(b.contains(x));
                let m = choose|m: int| 0 <= m < b.len() && b[m] == x;
                assert(m != 0);
                assert(tb[m - 1] == x);
            }
            if tb.contains(x) {
                let k = choose|k: int| 0 <= k < tb.len() && tb[k] == x;
                assert(b[0] < b[k + 1]);
                assert(b.contains(x));
                assert(a.contains(x));
                let m = choose|m: int| 0 <= m < a.len() && a[m] == x;
                assert(m != 0);
                assert(ta[m - 1] == x);
            }
        }
        assert(ascending(ta)) by {
            assert forall|p: int, q: int| 0 <= p < q < ta.len() implies ta[p] < ta[q] by {
                assert(a[p + 1] < a[q + 1]);
            }
        }
        assert(ascending(tb)) by {
            assert forall|p: int, q: int| 0 <= p < q < tb.len() implies tb[p] < tb[q] by {
                assert(b[p + 1] < b[q + 1]);
            }
        }
        lemma_ascending_determined(ta, tb);
        assert(a =~= b) by {
            assert forall|p: int| 0 <= p < a.len() implies a[p] == b[p] by {
                if p > 0 {
                    assert(a[p] == ta[p - 1]);
                    assert(b[p] == tb[p - 1]);
                }
            }
        }
    }
}

/// Removing a key from an empty set fails; inserting it there and then removing it both
/// succeed; removing it once more fails. `s1` and `s2` are the key sequences that `insert`
/// and then `remove` promise, starting from the empty one that `new` promises.
pub proof fn lemma_insert_remove_complement(k: u64, s1: Seq<u64>, s2: Seq<u64>)
    requires
        forall|x: u64| #[trigger] s1.contains(x) == (Seq::<u64>::empty().contains(x) || x == k),
        forall|x: u64| #[trigger] s2.contains(x) == (s1.contains(x) && x != k),
    ensures
        !Seq::<u64>::empty().contains(k),
        s1.contains(k),
        !s2.contains(k),
{
}

} // verus!
