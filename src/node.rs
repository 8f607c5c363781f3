use vstd::prelude::*;
use crate::board::Board;

verus! {

/// Pointer value meaning "no node": an unexpanded or evicted edge, or the
/// parent of the root.
pub const NULL_PTR: i32 = -1;

/// Fixed-point 1.0 for win probabilities and policy weights.
pub const ONE: u64 = 1_000_000;

/// Per-node playout counts stop growing here, which keeps running score
/// sums far below the range of `u64`.
pub const MAX_NODE_PLAYOUTS: u64 = 0x100_0000_0000;

/// The most edges a node holds: the move generator's list size.
pub const MAX_EDGES: usize = 256;

/// One candidate move and the channel to the node it leads to.
pub struct Edge {
    pub mov: ataxx::Move,
    pub ptr: i32,
    pub policy: u64,
}

/// One explored position of the search tree.
pub struct Node {
    pub position: Board,
    pub edges: Vec<Edge>,
    pub playouts: u64,
    pub total_score: u64,
    pub parent_node: i32,
    pub parent_edge: i32,
}

/// The sum of the policy weights of a list of edges.
pub open spec fn policy_sum(edges: Seq<Edge>) -> nat
    decreases edges.len(),
{
    if edges.len() == 0 {
        0
    } else {
        policy_sum(edges.drop_last()) + edges.last().policy as nat
    }
}

/// The weights of an expanded node add up to 1, up to one unit of rounding
/// per edge; an edge list that is empty carries no weights.
pub open spec fn policy_normalized(edges: Seq<Edge>) -> bool {
    edges.len() > 0 ==> policy_sum(edges) <= ONE && policy_sum(edges) + edges.len() > ONE
}

/// Every edge of the list is unexpanded.
pub open spec fn all_unexpanded(edges: Seq<Edge>) -> bool {
    forall|e: int| 0 <= e < edges.len() ==> #[trigger] edges[e].ptr == NULL_PTR
}

/// The mean score of a node: its score sum over its playouts, or over one
/// when it has none.
pub open spec fn mean_score(n: Node) -> int {
    if n.playouts == 0 {
        n.total_score as int
    } else {
        n.total_score as int / n.playouts as int
    }
}

impl Edge {
    /// An unexpanded edge for a move, with no weight yet.
    pub fn new(m: ataxx::Move) -> (r: Edge)
        ensures
            r.mov == m,
            r.ptr == NULL_PTR,
            r.policy == 0,
    {
        Edge { mov: m, ptr: NULL_PTR, policy: 0 }
    }
}

impl Node {
    /// Scores stay within the fixed-point range: each playout adds a value
    /// of at most `ONE`; the edge weights are normalized.
    pub open spec fn wf(&self) -> bool {
        &&& self.position.wf()
        &&& self.total_score <= self.playouts * ONE
        &&& self.playouts <= MAX_NODE_PLAYOUTS
        &&& policy_normalized(self.edges@)
        &&& self.edges@.len() <= MAX_EDGES
    }

    /// A fresh, unexpanded node for a position, reached through the edge
    /// `parent_edge` of the node at `parent_node`.
    pub fn new(position: Board, parent_node: i32, parent_edge: i32) -> (r: Node)
        ensures
            r.position == position,
            r.edges@.len() == 0,
            r.playouts == 0,
            r.total_score == 0,
            r.parent_node == parent_node,
            r.parent_edge == parent_edge,
    {
        Node { position, edges: Vec::new(), playouts: 0, total_score: 0, parent_node, parent_edge }
    }

    /// Whether the game has ended at this node.
    pub fn is_terminal(&self) -> (r: bool)
        requires
            self.position.wf(),
        ensures
            r == self.position.game_over(),
    {
        self.position.is_game_over()
    }

    /// The edge at an index.
    pub fn edge(&self, ptr: usize) -> (r: &Edge)
        requires
            ptr < self.edges@.len(),
        ensures
            *r == self.edges@[ptr as int],
    {
        &self.edges[ptr]
    }

    /// The number of edges of this node.
    pub fn len(&self) -> (r: usize)
        ensures
            r == self.edges@.len(),
    {
        self.edges.len()
    }

    /// The mean score, a fixed-point value from the perspective of the side
    /// to move at this node.
    pub fn q(&self) -> (r: u64)
        requires
            self.wf(),
        ensures
            r == mean_score(*self),
            r <= ONE,
    {
        if self.playouts == 0 {
            self.total_score
        } else {
            proof {
                lemma_mean_bound(self.total_score as int, self.playouts as int);
            }
            self.total_score / self.playouts
        }
    }
}

/// A sum of at most `ONE` per playout has a mean of at most `ONE`.
pub proof fn lemma_mean_bound(total: int, n: int)
    requires
        n > 0,
        0 <= total <= n * ONE,
    ensures
        0 <= total / n <= ONE,
{
    assert(total / n <= ONE) by (nonlinear_arith)
        requires
            n > 0,
            0 <= total <= n * ONE,
    ;
    assert(total / n >= 0) by (nonlinear_arith)
        requires
            n > 0,
            0 <= total,
    ;
}

} // verus!
