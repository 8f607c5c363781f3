//! A least-recently-used store of search-tree nodes. Nodes live in slots of
//! one table, addressed by integer pointers; the recency order is a doubly
//! linked list threaded through the slots themselves.
use vstd::prelude::*;
use crate::board::null_move;
use crate::node::{Edge, Node, NULL_PTR, MAX_EDGES, ONE, MAX_NODE_PLAYOUTS, all_unexpanded, policy_normalized};

verus! {

/// The largest number of slots a cache can have: pointers are `i32`.
pub const MAX_CAPACITY: usize = 0x7fff_fffe;

/// Slot footprint assumed when sizing a cache by memory.
pub const ENTRY_BYTES: usize = 64;

/// Divisor applied to the slot count of a memory budget, leaving headroom
/// for the edge lists that slots do not hold inline.
pub const EDGE_HEADROOM: usize = 60;

/// One slot of the cache: a node and its links in the recency list.
pub struct Entry {
    pub val: Node,
    prev: i32,
    next: i32,
}

/// A fixed-capacity store of nodes with least-recently-used eviction.
pub struct Cache {
    root_edge: Edge,
    map: Vec<Entry>,
    cap: usize,
    void: i32,
    head: i32,
    tail: i32,
    /// The live slots, most recently used first.
    order: Ghost<Seq<int>>,
    /// The position of each live slot in `order`.
    index: Ghost<Seq<int>>,
}

impl Cache {
    /// The number of slots in use.
    pub closed spec fn live(&self) -> int {
        self.map@.len() as int
    }

    /// The number of slots the cache may use.
    pub closed spec fn capacity(&self) -> int {
        self.cap as int
    }

    /// The node stored in a slot.
    pub closed spec fn slot(&self, s: int) -> Node {
        self.map@[s].val
    }

    /// The pointer held by the root edge.
    pub closed spec fn root_ptr(&self) -> i32 {
        self.root_edge.ptr
    }

    /// The live slots, from the most recently used to the least.
    pub closed spec fn recency(&self) -> Seq<int> {
        self.order@
    }

    pub open spec fn valid(&self, t: int) -> bool {
        0 <= t < self.live()
    }

    /// The slot that the next `push` fills: a never-used one while there
    /// is room, else the least recently used.
    pub open spec fn victim(&self) -> int {
        if self.live() < self.capacity() {
            self.live()
        } else {
            self.recency().last()
        }
    }

    /// Every edge pointer other than the sentinel names a live slot whose
    /// back-reference is that very edge, one ply further into the game.
    pub open spec fn pointers_ok(&self) -> bool {
        &&& (self.root_ptr() == NULL_PTR || (self.valid(self.root_ptr() as int) && self.slot(
            self.root_ptr() as int,
        ).parent_node == NULL_PTR))
        &&& forall|s: int, e: int|
            #![trigger self.slot(s).edges@[e]]
            0 <= s < self.live() && 0 <= e < self.slot(s).edges@.len() ==> {
                let t = self.slot(s).edges@[e].ptr as int;
                t == NULL_PTR || (self.valid(t) && self.slot(t).parent_node == s
                    && self.slot(t).parent_edge == e && self.slot(t).position.ply_count
                    == self.slot(s).position.ply_count + 1)
            }
    }

    /// Every live node keeps its score and weight invariants.
    pub open spec fn nodes_ok(&self) -> bool {
        forall|s: int| 0 <= s < self.live() ==> #[trigger] self.slot(s).wf()
    }

    pub closed spec fn links_ok(&self) -> bool {
        let o = self.order@;
        let n = o.len();
        &&& forall|i: int| 0 <= i < n ==> 0 <= #[trigger] o[i] < self.map@.len()
        &&& forall|i: int, j: int| 0 <= i < j < n ==> o[i] != o[j]
        &&& self.head as int == if n == 0 { -1 } else { o[0] }
        &&& self.tail as int == if n == 0 { -1 } else { o[n - 1] }
        &&& forall|i: int|
            0 <= i < n ==> (#[trigger] self.map@[o[i]]).prev as int == if i == 0 {
                -1
            } else {
                o[i - 1]
            }
        &&& forall|i: int|
            0 <= i < n ==> (#[trigger] self.map@[o[i]]).next as int == if i == n - 1 {
                -1
            } else {
                o[i + 1]
            }
    }

    pub closed spec fn list_ok(&self) -> bool {
        let o = self.order@;
        &&& self.links_ok()
        &&& self.void as int == self.map@.len()
        &&& o.len() == self.map@.len()
        &&& self.index@.len() == self.map@.len()
        &&& forall|s: int|
            0 <= s < self.map@.len() ==> 0 <= #[trigger] self.index@[s] < o.len() && o[self.index@[s]]
                == s
        &&& 1 <= self.cap <= MAX_CAPACITY
        &&& self.map@.len() <= self.cap
    }

    /// The cache is well formed.
    pub open spec fn wf(&self) -> bool {
        &&& self.list_ok()
        &&& self.pointers_ok()
        &&& self.nodes_ok()
    }

    pub proof fn lemma_wf_facts(&self)
        requires
            self.wf(),
        ensures
            1 <= self.capacity() <= MAX_CAPACITY,
            0 <= self.live() <= self.capacity(),
            self.recency().len() == self.live(),
            self.live() == self.capacity() ==> self.valid(self.victim()),
            forall|i: int| 0 <= i < self.live() ==> #[trigger] self.valid(self.recency()[i]),
    {
        if self.live() == self.capacity() {
            let n = self.order@.len();
            assert(0 <= self.order@[n - 1]);
        }
    }
}

impl Cache {
    /// A cache sized by a memory budget in mebibytes, leaving headroom for
    /// the edge lists that slots do not hold inline.
    pub fn new_mib(mib: usize) -> (r: Cache)
        requires
            1 <= mib <= 0x10_0000,
        ensures
            r.wf(),
            r.live() == 0,
            r.root_ptr() == NULL_PTR,
            r.capacity() == mib as int * 0x10_0000 / (ENTRY_BYTES as int) / (EDGE_HEADROOM as int),
    {
        let bytes: u64 = mib as u64 * 0x10_0000;
        let cap: u64 = bytes / (ENTRY_BYTES as u64) / (EDGE_HEADROOM as u64);
        assert(cap >= 1 && cap <= MAX_CAPACITY) by (nonlinear_arith)
            requires
                1 <= mib <= 0x10_0000,
                bytes == mib as u64 * 0x10_0000,
                cap == bytes / 64 / 60,
        ;
        Cache::new(cap as usize)
    }

    /// An empty cache with room for `cap` nodes.
    pub fn new(cap: usize) -> (r: Cache)
        requires
            1 <= cap <= MAX_CAPACITY,
        ensures
            r.wf(),
            r.live() == 0,
            r.capacity() == cap,
            r.root_ptr() == NULL_PTR,
    {
        Cache {
            root_edge: Edge::new(null_move()),
            map: Vec::with_capacity(cap),
            cap,
            void: 0,
            head: NULL_PTR,
            tail: NULL_PTR,
            order: Ghost(Seq::empty()),
            index: Ghost(Seq::empty()),
        }
    }

    /// The number of slots in use.
    pub fn len(&self) -> (r: usize)
        requires
            self.wf(),
        ensures
            r == self.live(),
    {
        self.map.len()
    }

    /// The number of slots the cache may use.
    pub fn cap(&self) -> (r: usize)
        ensures
            r == self.capacity(),
    {
        self.cap
    }

    /// The slot that the next `push` fills.
    pub fn next_slot(&self) -> (r: i32)
        requires
            self.wf(),
        ensures
            r == self.victim(),
    {
        if self.map.len() < self.cap {
            self.map.len() as i32
        } else {
            self.tail
        }
    }

    /// The node at a pointer.
    pub fn node(&self, ptr: i32) -> (r: &Node)
        requires
            self.valid(ptr as int),
        ensures
            *r == self.slot(ptr as int),
    {
        &self.map[ptr as usize].val
    }

    /// The edge `edge_ptr` of the node at `parent`; the root edge when
    /// `parent` is the sentinel.
    pub fn edge(&self, parent: i32, edge_ptr: i32) -> (r: &Edge)
        requires
            parent == NULL_PTR || (self.valid(parent as int) && 0 <= edge_ptr < self.slot(
                parent as int,
            ).edges@.len()),
        ensures
            parent == NULL_PTR ==> r.ptr == self.root_ptr(),
            parent != NULL_PTR ==> *r == self.slot(parent as int).edges@[edge_ptr as int],
    {
        if parent == NULL_PTR {
            &self.root_edge
        } else {
            &self.map[parent as usize].val.edges[edge_ptr as usize]
        }
    }

    /// Unlinks a slot from the recency list, keeping its data.
    fn detach(&mut self, ptr: i32, Ghost(k): Ghost<int>)
        requires
            old(self).links_ok(),
            0 <= k < old(self).order@.len(),
            old(self).order@[k] == ptr,
        ensures
            final(self).links_ok(),
            final(self).order@ == old(self).order@.remove(k),
            final(self).map@.len() == old(self).map@.len(),
            forall|s: int|
                0 <= s < old(self).map@.len() ==> (#[trigger] final(self).map@[s]).val == old(
                    self,
                ).map@[s].val,
            final(self).root_edge == old(self).root_edge,
            final(self).cap == old(self).cap,
            final(self).void == old(self).void,
            final(self).index == old(self).index,
    {
        let ghost o = self.order@;
        let ghost n = o.len();
        let prev_ptr = self.map[ptr as usize].prev;
        let next_ptr = self.map[ptr as usize].next;
        assert(prev_ptr as int == if k == 0 { -1 } else { o[k - 1] });
        assert(next_ptr as int == if k == n - 1 { -1 } else { o[k + 1] });
        if prev_ptr != NULL_PTR {
            self.map[prev_ptr as usize].next = next_ptr;
        } else {
            self.head = next_ptr;
        }
        if next_ptr != NULL_PTR {
            self.map[next_ptr as usize].prev = prev_ptr;
        } else {
            self.tail = prev_ptr;
        }
        self.order = Ghost(o.remove(k));
        proof {
            let o2 = self.order@;
            assert forall|i: int| 0 <= i < o2.len() implies (#[trigger] self.map@[o2[i]]).prev as int
                == if i == 0 { -1 } else { o2[i - 1] } by {
                if i < k {
                    assert(o2[i] == o[i]);
                } else {
                    assert(o2[i] == o[i + 1]);
                }
            }
            assert forall|i: int| 0 <= i < o2.len() implies (#[trigger] self.map@[o2[i]]).next as int
                == if i == o2.len() - 1 { -1 } else { o2[i + 1] } by {
                if i < k {
                    assert(o2[i] == o[i]);
                } else {
                    assert(o2[i] == o[i + 1]);
                }
            }
        }
    }

    /// Links a slot that is not in the recency list in as its head.
    fn attach(&mut self, ptr: i32)
        requires
            old(self).links_ok(),
            0 <= ptr < old(self).map@.len(),
            forall|i: int| 0 <= i < old(self).order@.len() ==> old(self).order@[i] != ptr,
        ensures
            final(self).links_ok(),
            final(self).order@ == seq![ptr as int] + old(self).order@,
            final(self).map@.len() == old(self).map@.len(),
            forall|s: int|
                0 <= s < old(self).map@.len() ==> (#[trigger] final(self).map@[s]).val == old(
                    self,
                ).map@[s].val,
            final(self).root_edge == old(self).root_edge,
            final(self).cap == old(self).cap,
            final(self).void == old(self).void,
            final(self).index == old(self).index,
    {
        let ghost o = self.order@;
        let old_head = self.head;
        if old_head != NULL_PTR {
            self.map[old_head as usize].prev = ptr;
        }
        if self.tail == NULL_PTR {
            self.tail = ptr;
        }
        self.head = ptr;
        self.map[ptr as usize].next = old_head;
        self.map[ptr as usize].prev = NULL_PTR;
        self.order = Ghost(seq![ptr as int] + o);
        proof {
            let o2 = self.order@;
            assert forall|i: int| 0 <= i < o2.len() implies (#[trigger] self.map@[o2[i]]).prev as int
                == if i == 0 { -1 } else { o2[i - 1] } by {
                if i > 0 {
                    assert(o2[i] == o[i - 1]);
                }
            }
            assert forall|i: int| 0 <= i < o2.len() implies (#[trigger] self.map@[o2[i]]).next as int
                == if i == o2.len() - 1 { -1 } else { o2[i + 1] } by {
                if i > 0 {
                    assert(o2[i] == o[i - 1]);
                }
            }
            assert forall|i: int, j: int| 0 <= i < j < o2.len() implies o2[i] != o2[j] by {
                if i > 0 {
                    assert(o2[i] == o[i - 1]);
                }
                assert(o2[j] == o[j - 1]);
            }
        }
    }
}

impl Cache {
    /// Makes a live slot the most recently used one.
    pub fn promote(&mut self, ptr: i32)
        requires
            old(self).wf(),
            old(self).valid(ptr as int),
        ensures
            final(self).wf(),
            final(self).live() == old(self).live(),
            final(self).capacity() == old(self).capacity(),
            final(self).root_ptr() == old(self).root_ptr(),
            forall|s: int|
                0 <= s < old(self).live() ==> #[trigger] final(self).slot(s) == old(self).slot(s),
            exists|k: int|
                0 <= k < old(self).recency().len() && old(self).recency()[k] == ptr
                    && final(self).recency() == seq![ptr as int] + old(self).recency().remove(k),
    {
        let ghost k = self.index@[ptr as int];
        let ghost o = self.order@;
        let ghost idx = self.index@;
        let ghost before = *self;
        self.detach(ptr, Ghost(k));
        self.attach(ptr);
        self.index = Ghost(
            Seq::new(
                idx.len(),
                |s: int|
                    if s == ptr {
                        0
                    } else if idx[s] < k {
                        idx[s] + 1
                    } else {
                        idx[s]
                    },
            ),
        );
        proof {
            let o2 = self.order@;
            assert forall|s: int| 0 <= s < self.map@.len() implies 0 <= #[trigger] self.index@[s]
                < o2.len() && o2[self.index@[s]] == s by {
                if s != ptr {
                    assert(idx[s] != k);
                }
            }
            assert(forall|s: int| 0 <= s < self.map@.len() ==> self.slot(s) == before.slot(s));
            Cache::lemma_same_slots(before, *self);
            assert(0 <= k < before.recency().len() && before.recency()[k] == ptr && self.recency()
                == seq![ptr as int] + before.recency().remove(k));
        }
    }

    /// Purges the least recently used slot: clears the one edge that may
    /// point to it and unlinks it from the recency list. Returns the slot.
    fn remove_lru(&mut self) -> (r: i32)
        requires
            old(self).wf(),
            old(self).live() == old(self).capacity(),
        ensures
            r == old(self).victim(),
            final(self).links_ok(),
            final(self).order@ == old(self).order@.drop_last(),
            final(self).map@.len() == old(self).map@.len(),
            final(self).cap == old(self).cap,
            final(self).void == old(self).void,
            final(self).index == old(self).index,
            final(self).nodes_ok(),
            final(self).root_ptr() != r,
            final(self).root_ptr() == NULL_PTR || (final(self).valid(final(self).root_ptr() as int)
                && final(self).slot(final(self).root_ptr() as int).parent_node == NULL_PTR),
            final(self).root_ptr() == if old(self).root_ptr() == r {
                NULL_PTR
            } else {
                old(self).root_ptr()
            },
            forall|s: int|
                0 <= s < final(self).live() ==> unlinked_from(
                    #[trigger] final(self).slot(s),
                    old(self).slot(s),
                    r as int,
                ),
            forall|s: int, e: int|
                #![trigger final(self).slot(s).edges@[e]]
                0 <= s < final(self).live() && 0 <= e < final(self).slot(s).edges@.len()
                    ==> final(self).slot(s).edges@[e].ptr != r && {
                    let t = final(self).slot(s).edges@[e].ptr as int;
                    t == NULL_PTR || (final(self).valid(t) && final(self).slot(t).parent_node == s
                        && final(self).slot(t).parent_edge == e
                        && final(self).slot(t).position.ply_count == final(self).slot(
                        s,
                    ).position.ply_count + 1)
                },
    {
        proof {
            self.lemma_wf_facts();
        }
        let ghost before = *self;
        let ghost n = self.order@.len();
        let tail = self.tail;
        let parent_node = self.map[tail as usize].val.parent_node;
        let parent_edge = self.map[tail as usize].val.parent_edge;
        if parent_node == NULL_PTR {
            if self.root_edge.ptr == tail {
                self.root_edge.ptr = NULL_PTR;
            }
        } else if 0 <= parent_node && (parent_node as usize) < self.map.len() && 0 <= parent_edge
            && (parent_edge as usize) < self.map[parent_node as usize].val.edges.len() {
            if self.map[parent_node as usize].val.edges[parent_edge as usize].ptr == tail {
                self.map[parent_node as usize].val.edges[parent_edge as usize].ptr = NULL_PTR;
            }
        }
        proof {
            assert forall|s: int, e: int|
                0 <= s < self.live() && 0 <= e < self.slot(s).edges@.len() implies #[trigger] self.slot(
                s,
            ).edges@[e].ptr != tail by {
                assert(before.slot(s).edges@[e] == before.slot(s).edges@[e]);
                if before.slot(s).edges@[e].ptr == tail {
                    assert(before.slot(tail as int).parent_node == s);
                    assert(before.slot(tail as int).parent_edge == e);
                }
            }
            assert forall|s: int| 0 <= s < self.live() implies #[trigger] self.slot(s).wf() by {
                assert(before.slot(s).wf());
                if s == parent_node {
                    let a = self.slot(s).edges@;
                    let b = before.slot(s).edges@;
                    assert(a.len() == b.len());
                    assert forall|j: int| 0 <= j <= a.len() implies #[trigger] crate::node::policy_sum(
                        a.subrange(0, j),
                    ) == crate::node::policy_sum(b.subrange(0, j)) by {
                        lemma_policy_sum_same(a, b, j);
                    }
                    assert(a.subrange(0, a.len() as int) =~= a);
                    assert(b.subrange(0, b.len() as int) =~= b);
                }
            }
            assert forall|s: int, e: int|
                0 <= s < self.live() && 0 <= e < self.slot(s).edges@.len() implies {
                    let t = #[trigger] self.slot(s).edges@[e].ptr as int;
                    t == NULL_PTR || (self.valid(t) && self.slot(t).parent_node == s
                        && self.slot(t).parent_edge == e && self.slot(t).position.ply_count
                        == self.slot(s).position.ply_count + 1)
                } by {
                assert(before.slot(s).edges@[e] == before.slot(s).edges@[e]);
                let t = self.slot(s).edges@[e].ptr as int;
                if t != NULL_PTR {
                    assert(t == before.slot(s).edges@[e].ptr);
                }
            }
        }
        let ghost mid = *self;
        self.detach(tail, Ghost(n - 1));
        proof {
            assert(forall|s: int| 0 <= s < self.live() ==> #[trigger] self.slot(s) == mid.slot(s));
        }
        tail
    }
}

impl Cache {
    /// Two caches holding the same nodes under the same root keep the same
    /// pointer and node invariants.
    proof fn lemma_same_slots(a: Cache, b: Cache)
        requires
            a.pointers_ok(),
            a.nodes_ok(),
            a.live() == b.live(),
            a.root_ptr() == b.root_ptr(),
            forall|s: int| 0 <= s < a.live() ==> #[trigger] b.slot(s) == a.slot(s),
        ensures
            b.pointers_ok(),
            b.nodes_ok(),
    {
        assert forall|s: int, e: int|
            0 <= s < b.live() && 0 <= e < b.slot(s).edges@.len() implies {
                let t = #[trigger] b.slot(s).edges@[e].ptr as int;
                t == NULL_PTR || (b.valid(t) && b.slot(t).parent_node == s && b.slot(t).parent_edge
                    == e && b.slot(t).position.ply_count == b.slot(s).position.ply_count + 1)
            } by {
            assert(a.slot(s).edges@[e] == b.slot(s).edges@[e]);
            let t = b.slot(s).edges@[e].ptr as int;
            if t != NULL_PTR {
                assert(a.slot(t) == b.slot(t));
            }
        }
        assert forall|s: int| 0 <= s < b.live() implies #[trigger] b.slot(s).wf() by {
            assert(a.slot(s).wf());
        }
        if b.root_ptr() != NULL_PTR {
            assert(a.slot(a.root_ptr() as int) == b.slot(b.root_ptr() as int));
        }
    }
}

impl Cache {
    /// Pointer symmetry: an edge pointer other than the sentinel leads to a
    /// live node whose back-reference names exactly that edge.
    pub proof fn lemma_pointer_symmetry(&self, s: int, e: int)
        requires
            self.wf(),
            self.valid(s),
            0 <= e < self.slot(s).edges@.len(),
            self.slot(s).edges@[e].ptr != NULL_PTR,
        ensures
            self.valid(self.slot(s).edges@[e].ptr as int),
            self.slot(self.slot(s).edges@[e].ptr as int).parent_node == s,
            self.slot(self.slot(s).edges@[e].ptr as int).parent_edge == e,
    {
        assert(self.slot(s).edges@[e] == self.slot(s).edges@[e]);
    }

    /// Pointer symmetry at the root: the root edge leads to a live node
    /// without parent.
    pub proof fn lemma_root_symmetry(&self)
        requires
            self.wf(),
            self.root_ptr() != NULL_PTR,
        ensures
            self.valid(self.root_ptr() as int),
            self.slot(self.root_ptr() as int).parent_node == NULL_PTR,
    {
    }

    /// The weights of every expanded live node add up to 1 within one unit
    /// per edge.
    pub proof fn lemma_policy_normalized(&self, s: int)
        requires
            self.wf(),
            self.valid(s),
            self.slot(s).edges@.len() > 0,
        ensures
            crate::node::policy_sum(self.slot(s).edges@) <= ONE,
            crate::node::policy_sum(self.slot(s).edges@) + self.slot(s).edges@.len() > ONE,
    {
        assert(self.slot(s).wf());
    }

    /// The mean score of every live node lies between 0 and 1.
    pub proof fn lemma_mean_score_range(&self, s: int)
        requires
            self.wf(),
            self.valid(s),
        ensures
            0 <= crate::node::mean_score(self.slot(s)) <= ONE,
    {
        assert(self.slot(s).wf());
        if self.slot(s).playouts > 0 {
            crate::node::lemma_mean_bound(
                self.slot(s).total_score as int,
                self.slot(s).playouts as int,
            );
        }
    }
}

/// `a` is `b` with every edge pointer to slot `r` reset to the sentinel.
pub open spec fn unlinked_from(a: Node, b: Node, r: int) -> bool {
    &&& a.position == b.position
    &&& a.playouts == b.playouts
    &&& a.total_score == b.total_score
    &&& a.parent_node == b.parent_node
    &&& a.parent_edge == b.parent_edge
    &&& a.edges@.len() == b.edges@.len()
    &&& forall|e: int|
        #![trigger a.edges@[e]]
        0 <= e < a.edges@.len() ==> a.edges@[e].mov == b.edges@[e].mov && a.edges@[e].policy
            == b.edges@[e].policy && a.edges@[e].ptr == if b.edges@[e].ptr == r {
            NULL_PTR
        } else {
            b.edges@[e].ptr
        }
}

impl Cache {
    /// Stores a node in the cache as its most recently used entry. A
    /// never-used slot is taken while there is room; otherwise the least
    /// recently used slot is evicted and reused, and the one edge that
    /// pointed to it is reset to the sentinel. Returns the slot.
    pub fn push(&mut self, val: Node) -> (r: i32)
        requires
            old(self).wf(),
            val.wf(),
            all_unexpanded(val.edges@),
        ensures
            final(self).wf(),
            r == old(self).victim(),
            final(self).valid(r as int),
            final(self).slot(r as int) == val,
            final(self).capacity() == old(self).capacity(),
            final(self).live() == if old(self).live() < old(self).capacity() {
                old(self).live() + 1
            } else {
                old(self).live()
            },
            final(self).recency() == seq![r as int] + if old(self).live() < old(self).capacity() {
                old(self).recency()
            } else {
                old(self).recency().drop_last()
            },
            final(self).root_ptr() == if old(self).root_ptr() == r {
                NULL_PTR
            } else {
                old(self).root_ptr()
            },
            forall|s: int|
                0 <= s < old(self).live() && s != r ==> unlinked_from(
                    #[trigger] final(self).slot(s),
                    old(self).slot(s),
                    r as int,
                ),
            forall|s: int, e: int|
                0 <= s < final(self).live() && 0 <= e < final(self).slot(s).edges@.len()
                    ==> #[trigger] final(self).slot(s).edges@[e].ptr != r,
    {
        proof {
            self.lemma_wf_facts();
        }
        let ghost idx = self.index@;
        let ghost before = *self;
        if self.map.len() < self.cap {
            let ptr = self.map.len() as i32;
            self.map.push(Entry { val, prev: NULL_PTR, next: NULL_PTR });
            self.void = self.void + 1;
            proof {
                assert forall|s: int| 0 <= s < before.live() implies #[trigger] self.slot(s)
                    == before.slot(s) by {
                    assert(self.map@[s] == before.map@[s]);
                }
            }
            let ghost pushed = *self;
            self.attach(ptr);
            self.index = Ghost(idx.map_values(|i: int| i + 1).push(0));
            proof {
                assert(forall|s: int| 0 <= s < self.live() ==> #[trigger] self.slot(s) == pushed.slot(s));
                let o2 = self.order@;
                assert forall|s: int| 0 <= s < self.map@.len() implies 0 <= #[trigger] self.index@[s]
                    < o2.len() && o2[self.index@[s]] == s by {
                    if s < before.live() {
                        assert(self.index@[s] == idx[s] + 1);
                    }
                }
                assert forall|s: int, e: int|
                    0 <= s < self.live() && 0 <= e < self.slot(s).edges@.len() implies {
                        let t = #[trigger] self.slot(s).edges@[e].ptr as int;
                        t != ptr && (t == NULL_PTR || (self.valid(t) && self.slot(t).parent_node == s
                            && self.slot(t).parent_edge == e && self.slot(t).position.ply_count
                            == self.slot(s).position.ply_count + 1))
                    } by {
                    if s != ptr {
                        assert(before.slot(s).edges@[e] == self.slot(s).edges@[e]);
                        let t = self.slot(s).edges@[e].ptr as int;
                        if t != NULL_PTR {
                            assert(before.slot(t) == self.slot(t));
                        }
                    }
                }
                assert forall|s: int| 0 <= s < self.live() implies #[trigger] self.slot(s).wf() by {
                    if s != ptr {
                        assert(before.slot(s).wf());
                    }
                }
                if self.root_ptr() != NULL_PTR {
                    assert(before.slot(before.root_ptr() as int) == self.slot(self.root_ptr() as int));
                }
                assert forall|s: int| 0 <= s < before.live() && s != ptr implies unlinked_from(
                    #[trigger] self.slot(s),
                    before.slot(s),
                    ptr as int,
                ) by {
                    let a = self.slot(s);
                    assert forall|e: int| 0 <= e < a.edges@.len() implies #[trigger] a.edges@[e].ptr
                        != ptr by {
                        assert(before.slot(s).edges@[e] == a.edges@[e]);
                    }
                }
            }
            ptr
        } else {
            let ptr = self.remove_lru();
            let ghost removed = *self;
            self.map[ptr as usize].val = val;
            let ghost stored = *self;
            self.attach(ptr);
            self.index = Ghost(
                Seq::new(idx.len(), |s: int| if s == ptr { 0 } else { idx[s] + 1 }),
            );
            proof {
                let n = before.order@.len();
                assert(forall|s: int| 0 <= s < self.live() ==> #[trigger] self.slot(s) == stored.slot(s));
                assert(forall|s: int| 0 <= s < self.live() && s != ptr ==> #[trigger] self.slot(s) == removed.slot(s));
                let o2 = self.order@;
                assert forall|s: int| 0 <= s < self.map@.len() implies 0 <= #[trigger] self.index@[s]
                    < o2.len() && o2[self.index@[s]] == s by {
                    if s != ptr {
                        assert(idx[s] != n - 1);
                        assert(self.index@[s] == idx[s] + 1);
                    }
                }
                assert forall|s: int, e: int|
                    0 <= s < self.live() && 0 <= e < self.slot(s).edges@.len() implies {
                        let t = #[trigger] self.slot(s).edges@[e].ptr as int;
                        t != ptr && (t == NULL_PTR || (self.valid(t) && self.slot(t).parent_node == s
                            && self.slot(t).parent_edge == e && self.slot(t).position.ply_count
                            == self.slot(s).position.ply_count + 1))
                    } by {
                    if s != ptr {
                        assert(removed.slot(s).edges@[e] == self.slot(s).edges@[e]);
                        let t = self.slot(s).edges@[e].ptr as int;
                        if t != NULL_PTR {
                            assert(removed.slot(t) == self.slot(t));
                        }
                    }
                }
                assert forall|s: int| 0 <= s < self.live() implies #[trigger] self.slot(s).wf() by {
                    if s != ptr {
                        assert(removed.slot(s).wf());
                    }
                }
                if self.root_ptr() != NULL_PTR {
                    assert(removed.slot(removed.root_ptr() as int) == self.slot(self.root_ptr() as int));
                }
            }
            ptr
        }
    }

    /// Gives an unexpanded or emptied node its edge list.
    pub fn set_edges(&mut self, ptr: i32, edges: Vec<Edge>)
        requires
            old(self).wf(),
            old(self).valid(ptr as int),
            all_unexpanded(edges@),
            policy_normalized(edges@),
            edges@.len() <= MAX_EDGES,
        ensures
            final(self).wf(),
            final(self).live() == old(self).live(),
            final(self).capacity() == old(self).capacity(),
            final(self).root_ptr() == old(self).root_ptr(),
            final(self).recency() == old(self).recency(),
            final(self).slot(ptr as int) == (Node { edges, ..old(self).slot(ptr as int) }),
            forall|s: int|
                0 <= s < old(self).live() && s != ptr ==> #[trigger] final(self).slot(s) == old(
                    self,
                ).slot(s),
    {
        let ghost before = *self;
        self.map[ptr as usize].val.edges = edges;
        proof {
            assert forall|s: int, e: int|
                0 <= s < self.live() && 0 <= e < self.slot(s).edges@.len() implies {
                    let t = #[trigger] self.slot(s).edges@[e].ptr as int;
                    t == NULL_PTR || (self.valid(t) && self.slot(t).parent_node == s
                        && self.slot(t).parent_edge == e && self.slot(t).position.ply_count
                        == self.slot(s).position.ply_count + 1)
                } by {
                if s != ptr {
                    assert(before.slot(s).edges@[e] == self.slot(s).edges@[e]);
                }
            }
            assert forall|s: int| 0 <= s < self.live() implies #[trigger] self.slot(s).wf() by {
                assert(before.slot(s).wf());
            }
        }
    }

    /// Points the edge `edge_ptr` of the node at `parent` (the root edge when
    /// `parent` is the sentinel) at the node in slot `child`, whose
    /// back-reference names that edge.
    pub fn link(&mut self, parent: i32, edge_ptr: i32, child: i32)
        requires
            old(self).wf(),
            old(self).valid(child as int),
            old(self).slot(child as int).parent_node == parent,
            old(self).slot(child as int).parent_edge == edge_ptr,
            parent == NULL_PTR || (old(self).valid(parent as int) && 0 <= edge_ptr < old(self).slot(
                parent as int,
            ).edges@.len() && old(self).slot(child as int).position.ply_count == old(self).slot(
                parent as int,
            ).position.ply_count + 1),
        ensures
            final(self).wf(),
            final(self).live() == old(self).live(),
            final(self).capacity() == old(self).capacity(),
            final(self).recency() == old(self).recency(),
            parent == NULL_PTR ==> final(self).root_ptr() == child,
            parent == NULL_PTR ==> forall|s: int|
                0 <= s < old(self).live() ==> #[trigger] final(self).slot(s) == old(self).slot(s),
            parent != NULL_PTR ==> final(self).root_ptr() == old(self).root_ptr(),
            parent != NULL_PTR ==> final(self).slot(parent as int).edges@ == old(self).slot(
                parent as int,
            ).edges@.update(edge_ptr as int, Edge { ptr: child, ..old(self).slot(parent as int).edges@[edge_ptr as int] }),
            parent != NULL_PTR ==> forall|s: int|
                0 <= s < old(self).live() && s != parent ==> #[trigger] final(self).slot(s) == old(
                    self,
                ).slot(s),
            parent != NULL_PTR ==> final(self).slot(parent as int) == (Node {
                edges: final(self).slot(parent as int).edges,
                ..old(self).slot(parent as int)
            }),
    {
        let ghost before = *self;
        if parent == NULL_PTR {
            self.root_edge.ptr = child;
            proof {
                assert forall|s: int, e: int|
                    0 <= s < self.live() && 0 <= e < self.slot(s).edges@.len() implies {
                        let t = #[trigger] self.slot(s).edges@[e].ptr as int;
                        t == NULL_PTR || (self.valid(t) && self.slot(t).parent_node == s
                            && self.slot(t).parent_edge == e && self.slot(t).position.ply_count
                            == self.slot(s).position.ply_count + 1)
                    } by {
                    assert(before.slot(s).edges@[e] == self.slot(s).edges@[e]);
                }
                assert forall|s: int| 0 <= s < self.live() implies #[trigger] self.slot(s).wf() by {
                    assert(before.slot(s).wf());
                }
            }
        } else {
            self.map[parent as usize].val.edges[edge_ptr as usize].ptr = child;
            proof {
                let a = self.slot(parent as int).edges@;
                let b = before.slot(parent as int).edges@;
                assert forall|s: int, e: int|
                    0 <= s < self.live() && 0 <= e < self.slot(s).edges@.len() implies {
                        let t = #[trigger] self.slot(s).edges@[e].ptr as int;
                        t == NULL_PTR || (self.valid(t) && self.slot(t).parent_node == s
                            && self.slot(t).parent_edge == e && self.slot(t).position.ply_count
                            == self.slot(s).position.ply_count + 1)
                    } by {
                    if s != parent || e != edge_ptr {
                        assert(before.slot(s).edges@[e] == self.slot(s).edges@[e]);
                    }
                }
                assert forall|j: int| 0 <= j <= a.len() implies #[trigger] crate::node::policy_sum(
                    a.subrange(0, j),
                ) == crate::node::policy_sum(b.subrange(0, j)) by {
                    lemma_policy_sum_same(a, b, j);
                }
                assert(a.subrange(0, a.len() as int) =~= a);
                assert(b.subrange(0, b.len() as int) =~= b);
                assert forall|s: int| 0 <= s < self.live() implies #[trigger] self.slot(s).wf() by {
                    assert(before.slot(s).wf());
                }
                if self.root_ptr() != NULL_PTR {
                    assert(before.slot(before.root_ptr() as int) == self.slot(self.root_ptr() as int)
                        || self.root_ptr() == parent);
                }
            }
        }
    }

    /// Adds one playout with the given result to the node at `ptr`. Counts
    /// that reached `MAX_NODE_PLAYOUTS` stay as they are.
    pub fn record(&mut self, ptr: i32, value: u64)
        requires
            old(self).wf(),
            old(self).valid(ptr as int),
            value <= ONE,
        ensures
            final(self).wf(),
            final(self).live() == old(self).live(),
            final(self).capacity() == old(self).capacity(),
            final(self).root_ptr() == old(self).root_ptr(),
            final(self).recency() == old(self).recency(),
            final(self).slot(ptr as int) == if old(self).slot(ptr as int).playouts < MAX_NODE_PLAYOUTS {
                Node {
                    playouts: (old(self).slot(ptr as int).playouts + 1) as u64,
                    total_score: (old(self).slot(ptr as int).total_score + value) as u64,
                    ..old(self).slot(ptr as int)
                }
            } else {
                old(self).slot(ptr as int)
            },
            old(self).slot(ptr as int).playouts < MAX_NODE_PLAYOUTS ==> final(self).slot(
                ptr as int,
            ).playouts == old(self).slot(ptr as int).playouts + 1 && final(self).slot(
                ptr as int,
            ).total_score == old(self).slot(ptr as int).total_score + value,
            forall|s: int|
                0 <= s < old(self).live() && s != ptr ==> #[trigger] final(self).slot(s) == old(
                    self,
                ).slot(s),
    {
        let ghost before = *self;
        let playouts = self.map[ptr as usize].val.playouts;
        proof {
            assert(before.slot(ptr as int).wf());
        }
        if playouts < MAX_NODE_PLAYOUTS {
            let total = self.map[ptr as usize].val.total_score;
            assert(total + value <= (playouts + 1) * ONE) by (nonlinear_arith)
                requires
                    total <= playouts * ONE,
                    value <= ONE,
            ;
            assert((playouts + 1) * ONE <= 0x100_0000_0001 * ONE) by (nonlinear_arith)
                requires
                    playouts < MAX_NODE_PLAYOUTS,
            ;
            self.map[ptr as usize].val.playouts = playouts + 1;
            self.map[ptr as usize].val.total_score = total + value;
            proof {
                assert forall|s: int, e: int|
                    0 <= s < self.live() && 0 <= e < self.slot(s).edges@.len() implies {
                        let t = #[trigger] self.slot(s).edges@[e].ptr as int;
                        t == NULL_PTR || (self.valid(t) && self.slot(t).parent_node == s
                            && self.slot(t).parent_edge == e && self.slot(t).position.ply_count
                            == self.slot(s).position.ply_count + 1)
                    } by {
                    assert(before.slot(s).edges@[e] == self.slot(s).edges@[e]);
                }
                assert forall|s: int| 0 <= s < self.live() implies #[trigger] self.slot(s).wf() by {
                    assert(before.slot(s).wf());
                }
                if self.root_ptr() != NULL_PTR {
                    assert(before.slot(before.root_ptr() as int).parent_node == self.slot(
                        self.root_ptr() as int,
                    ).parent_node);
                }
            }
        }
    }
}

/// Two edge lists with the same weights have the same weight sums.
proof fn lemma_policy_sum_same(a: Seq<Edge>, b: Seq<Edge>, j: int)
    requires
        a.len() == b.len(),
        0 <= j <= a.len(),
        forall|e: int| 0 <= e < a.len() ==> #[trigger] a[e].policy == b[e].policy,
    ensures
        crate::node::policy_sum(a.subrange(0, j)) == crate::node::policy_sum(b.subrange(0, j)),
    decreases j,
{
    if j > 0 {
        lemma_policy_sum_same(a, b, j - 1);
        assert(a.subrange(0, j).drop_last() =~= a.subrange(0, j - 1));
        assert(b.subrange(0, j).drop_last() =~= b.subrange(0, j - 1));
    }
}

} // verus!
