//! The search tree: playouts of selection, expansion, evaluation and
//! backpropagation over the nodes of a least-recently-used cache.
use vstd::prelude::*;
use crate::bits::{cardinality, isqrt};
use crate::board::{Board, legal_moves, move_count, move_count_of, moves_of, play, spec_winner, winner};
use crate::features::FEATURES;
use crate::lru::{Cache, MAX_CAPACITY};
use crate::node::{Edge, Node, NULL_PTR, ONE, MAX_NODE_PLAYOUTS};
use crate::policy::{handcrafted, normalize, prior_sum, spec_handcrafted};
use crate::value::{
    ValueNetwork, material_count, monty_network, spec_material_count, spec_win_probability,
};

verus! {

/// The hidden width of the value network the engine ships with.
pub const HIDDEN: usize = 256;

/// The exploration constant of the selection rule, in hundredths.
pub const EXPLORATION: u64 = 141;

/// The most playouts one tree runs.
pub const MAX_PLAYOUTS: u64 = 0x100_0000_0000;

/// Playouts between two checks of the search budget.
pub const CHECKPOINT: u64 = 4096;

/// How leaves that are not terminal are scored.
pub enum ValueKind {
    Network(ValueNetwork<FEATURES, HIDDEN>),
    MaterialCount,
}

impl ValueKind {
    pub open spec fn wf(&self) -> bool {
        match self {
            ValueKind::Network(net) => net.wf(),
            ValueKind::MaterialCount => true,
        }
    }
}

/// The value of a finished game for the side to move: 1 for a win, 0 for a
/// loss, one half for a draw.
pub open spec fn terminal_value(b: Board) -> int {
    let w = spec_winner(b);
    if w == b.side_to_move {
        ONE as int
    } else if w == 1 - b.side_to_move {
        0
    } else {
        (ONE / 2) as int
    }
}

/// The value of a board for its side to move, in millionths of a win.
pub open spec fn spec_value(kind: ValueKind, b: Board) -> int {
    if b.game_over() {
        terminal_value(b)
    } else {
        match kind {
            ValueKind::Network(net) => spec_win_probability(net.board_score(b) as i32),
            ValueKind::MaterialCount => spec_material_count(b),
        }
    }
}

/// The heuristic priors of a list of moves.
pub open spec fn priors_of(b: Board, moves: Seq<ataxx::Move>) -> Seq<u64> {
    moves.map_values(|m: ataxx::Move| spec_handcrafted(b, m) as u64)
}

/// The edges a node of board `b` gets on expansion: one per legal move, in
/// the move generator's order, unexpanded, weighted by the move's share of
/// the heuristic priors.
pub open spec fn expanded_edges(b: Board, edges: Seq<Edge>) -> bool {
    let moves = moves_of(b);
    let priors = priors_of(b, moves);
    &&& edges.len() == moves.len()
    &&& forall|i: int|
        0 <= i < edges.len() ==> (#[trigger] edges[i]).mov == moves[i] && edges[i].ptr == NULL_PTR
            && edges[i].policy == priors[i] * ONE / (prior_sum(priors) as int)
}

/// The edges of a node follow the move generator's list for its position:
/// none yet, or one per listed move in the listed order, weighted by the
/// move's share of the heuristic priors.
pub open spec fn moves_match(n: Node) -> bool {
    let moves = moves_of(n.position);
    let priors = priors_of(n.position, moves);
    &&& (n.edges@.len() == 0 || n.edges@.len() == moves.len())
    &&& forall|i: int|
        0 <= i < n.edges@.len() ==> #[trigger] n.edges@[i].mov == moves[i] && n.edges@[i].policy
            == priors[i] * ONE / (prior_sum(priors) as int)
}

/// The edges of every live node follow the move generator, and the root
/// node holds the root position.
pub open spec fn tree_ok(c: Cache, root_position: Board) -> bool {
    &&& forall|s: int| 0 <= s < c.live() ==> #[trigger] moves_match(c.slot(s))
    &&& c.root_ptr() != NULL_PTR ==> c.slot(c.root_ptr() as int).position == root_position
}

/// Two nodes with the same position and the same moves on their edges.
pub open spec fn same_moves(x: Node, y: Node) -> bool {
    &&& x.position == y.position
    &&& x.edges@.len() == y.edges@.len()
    &&& forall|i: int|
        0 <= i < x.edges@.len() ==> #[trigger] x.edges@[i].mov == y.edges@[i].mov && x.edges@[i].policy
            == y.edges@[i].policy
}

proof fn lemma_tree_ok_kept(a: Cache, b: Cache, pos: Board, fresh: int)
    requires
        tree_ok(a, pos),
        b.wf(),
        a.live() <= b.live(),
        forall|s: int|
            0 <= s < b.live() && s != fresh ==> s < a.live() && same_moves(
                #[trigger] b.slot(s),
                a.slot(s),
            ),
        0 <= fresh < b.live() ==> moves_match(b.slot(fresh)),
        b.root_ptr() == NULL_PTR || (b.root_ptr() != fresh && b.root_ptr() == a.root_ptr()) || (
        b.root_ptr() == fresh && b.slot(fresh).position == pos),
    ensures
        tree_ok(b, pos),
{
    assert forall|s: int| 0 <= s < b.live() implies #[trigger] moves_match(b.slot(s)) by {
        if s != fresh {
            assert(same_moves(b.slot(s), a.slot(s)));
            assert(moves_match(a.slot(s)));
            let p = b.slot(s).position;
            assert forall|i: int| 0 <= i < b.slot(s).edges@.len() implies #[trigger] b.slot(
                s,
            ).edges@[i].mov == moves_of(p)[i] && b.slot(s).edges@[i].policy == priors_of(
                p,
                moves_of(p),
            )[i] * ONE / (prior_sum(priors_of(p, moves_of(p))) as int) by {
                assert(b.slot(s).edges@[i].mov == a.slot(s).edges@[i].mov);
                assert(a.slot(s).edges@[i].mov == moves_of(a.slot(s).position)[i]);
            }
        }
    }
    if b.root_ptr() != NULL_PTR && b.root_ptr() != fresh {
        assert(same_moves(b.slot(b.root_ptr() as int), a.slot(b.root_ptr() as int)));
    }
}

/// Each slot of `path` reaches the next through edge `along[i]`.
pub open spec fn links(c: Cache, path: Seq<i32>, along: Seq<int>) -> bool {
    &&& along.len() + 1 == path.len()
    &&& forall|i: int|
        #![trigger along[i]]
        0 <= i < along.len() ==> 0 <= along[i] < c.slot(path[i] as int).edges@.len() && c.slot(
            path[i] as int,
        ).edges@[along[i]].ptr == path[i + 1]
}

/// A result `v` for the side to move at a leaf, seen `k` plies further up.
pub open spec fn backed_value(v: int, k: int) -> int {
    if k % 2 == 0 {
        v
    } else {
        ONE - v
    }
}

/// `after` is a node with `playouts` and `total` before one more playout
/// with result `value`; counts that reached the cap stay.
pub open spec fn recorded(playouts: u64, total: u64, after: Node, value: int) -> bool {
    if playouts < MAX_NODE_PLAYOUTS {
        after.playouts == playouts + 1 && after.total_score == total + value
    } else {
        after.playouts == playouts && after.total_score == total
    }
}

/// What one playout from tree `a` to tree `b` did, ending at slot `r`: it
/// went from the root along linked edges to `r`; every node on the way got
/// one more playout and the leaf's value, flipped at each step up; and
/// every node on the way that it did not just create has its edges, unless
/// its game is over or it has more moves than the move list holds. A
/// playout that created no node stopped at a finished game, a node without
/// edges, or a node with an unexpanded edge. `fresh`
/// says the leaf was created by this playout. When creating it reused a
/// slot of the path itself, nothing is claimed of the path.
pub open spec fn playout_trace(a: Tree, b: Tree, path: Seq<i32>, along: Seq<int>, r: i32) -> bool {
    let fresh = b.spec_nodes() == a.spec_nodes() + 1;
    let n = path.len() as int;
    let v = spec_value(b.spec_value(), b.spec_cache().slot(r as int).position);
    &&& n >= 1
    &&& path[0] == a.spec_cache().root_ptr()
    &&& path[n - 1] == r
    &&& !(fresh && path.subrange(0, n - 1).contains(r)) ==> {
        &&& links(b.spec_cache(), path, along)
        &&& forall|i: int|
            0 <= i < n ==> recorded(
                if fresh && i == n - 1 {
                    0
                } else {
                    a.spec_cache().slot(path[i] as int).playouts
                },
                if fresh && i == n - 1 {
                    0
                } else {
                    a.spec_cache().slot(path[i] as int).total_score
                },
                #[trigger] b.spec_cache().slot(path[i] as int),
                backed_value(v, n - 1 - i),
            )
        &&& forall|i: int|
            0 <= i < n && !(fresh && i == n - 1) ==> {
                let m = #[trigger] b.spec_cache().slot(path[i] as int);
                !m.position.game_over() && move_count_of(m.position) <= 256 ==> m.edges@.len() > 0
            }
        &&& !fresh ==> {
            let m = b.spec_cache().slot(r as int);
            m.position.game_over() || m.edges@.len() == 0 || exists|e: int|
                0 <= e < m.edges@.len() && #[trigger] m.edges@[e].ptr == NULL_PTR
        }
    }
}

/// The number of playouts through the child behind edge `e` of slot `s`.
pub open spec fn visits(c: Cache, s: int, e: int) -> int {
    let t = c.slot(s).edges@[e].ptr;
    if t == NULL_PTR {
        0
    } else {
        c.slot(t as int).playouts as int
    }
}

/// The mean result of the child behind edge `e` of slot `s`, from the
/// perspective of the side to move at `s`; 0 for a child never visited.
pub open spec fn child_value(c: Cache, s: int, e: int) -> int {
    let t = c.slot(s).edges@[e].ptr;
    if t == NULL_PTR || c.slot(t as int).playouts == 0 {
        0
    } else {
        ONE - c.slot(t as int).total_score / c.slot(t as int).playouts
    }
}

/// The selection score of edge `e` of slot `s`, whose node has `sqrt_n`
/// as the integer square root of one more than its playouts: the child's
/// mean result plus an exploration bonus proportional to the edge's weight
/// and inversely proportional to one more than the child's playouts.
pub open spec fn edge_score(c: Cache, s: int, e: int, sqrt_n: int) -> int {
    child_value(c, s, e) + EXPLORATION * c.slot(s).edges@[e].policy * sqrt_n / (100 * (1
        + visits(c, s, e)))
}

/// A Monte Carlo search tree over a least-recently-used node cache.
pub struct Tree {
    cache: Cache,
    root_position: Board,
    value: ValueKind,
    playouts: u64,
    nodes: u64,
    /// The depth below the root position of the leaf of each playout, in
    /// the order the playouts ran.
    leaf_depths: Ghost<Seq<int>>,
}

/// How many plies a leaf lies below the root position.
pub open spec fn leaf_depth(leaf: Board, root: Board) -> int {
    if leaf.ply_count > root.ply_count {
        leaf.ply_count - root.ply_count
    } else {
        0
    }
}

/// The largest of `d` and the depths in `s`.
pub open spec fn max_depth(d: int, s: Seq<int>) -> int
    decreases s.len(),
{
    if s.len() == 0 {
        d
    } else {
        let m = max_depth(d, s.drop_last());
        if s.last() > m {
            s.last()
        } else {
            m
        }
    }
}

impl Tree {
    pub open spec fn wf(&self) -> bool {
        &&& self.spec_cache().wf()
        &&& self.spec_root_position().wf()
        &&& self.spec_value().wf()
        &&& self.spec_nodes() <= self.spec_playouts() <= MAX_PLAYOUTS
        &&& tree_ok(self.spec_cache(), self.spec_root_position())
    }

    pub closed spec fn spec_cache(&self) -> Cache {
        self.cache
    }

    pub closed spec fn spec_value(&self) -> ValueKind {
        self.value
    }

    pub closed spec fn spec_playouts(&self) -> u64 {
        self.playouts
    }

    pub closed spec fn spec_nodes(&self) -> u64 {
        self.nodes
    }

    pub closed spec fn spec_leaf_depths(&self) -> Seq<int> {
        self.leaf_depths@
    }

    pub closed spec fn spec_root_position(&self) -> Board {
        self.root_position
    }

    /// A tree for a position, with room for `cap` nodes.
    pub fn new(position: Board, cap: usize, value: ValueKind) -> (r: Tree)
        requires
            position.wf(),
            value.wf(),
            1 <= cap <= MAX_CAPACITY,
        ensures
            r.wf(),
            r.spec_playouts() == 0,
            r.spec_nodes() == 0,
            r.spec_leaf_depths() == Seq::<int>::empty(),
            r.spec_root_position() == position,
            r.spec_cache().live() == 0,
            r.spec_cache().capacity() == cap,
            r.spec_cache().root_ptr() == NULL_PTR,
    {
        Tree {
            cache: Cache::new(cap),
            root_position: position,
            value,
            playouts: 0,
            nodes: 0,
            leaf_depths: Ghost(Seq::empty()),
        }
    }

    /// The number of playouts performed.
    pub fn playouts(&self) -> (r: u64)
        ensures
            r == self.spec_playouts(),
    {
        self.playouts
    }

    /// The number of nodes materialized, evicted ones included.
    pub fn nodes(&self) -> (r: u64)
        ensures
            r == self.spec_nodes(),
    {
        self.nodes
    }

    /// The node at a pointer.
    pub fn node(&self, ptr: i32) -> (r: &Node)
        requires
            self.spec_cache().valid(ptr as int),
        ensures
            *r == self.spec_cache().slot(ptr as int),
    {
        self.cache.node(ptr)
    }

    /// The node cache, for reading.
    pub fn cache(&self) -> (r: &Cache)
        ensures
            *r == self.spec_cache(),
    {
        &self.cache
    }

    /// The slot of the root node, or the sentinel.
    pub fn root(&self) -> (r: i32)
        ensures
            r == self.spec_cache().root_ptr(),
    {
        self.cache.edge(NULL_PTR, 0).ptr
    }

    /// The position the tree searches from.
    pub fn root_position(&self) -> (r: Board)
        ensures
            r == self.spec_root_position(),
    {
        self.root_position
    }

    /// The value of the node at a pointer for its side to move: the game's
    /// result when it is over, else the leaf evaluator's.
    fn evaluate(&self, ptr: i32) -> (r: u64)
        requires
            self.wf(),
            self.spec_cache().valid(ptr as int),
        ensures
            r == spec_value(self.spec_value(), self.spec_cache().slot(ptr as int).position),
            r <= ONE,
    {
        let b = self.cache.node(ptr).position;
        proof {
            assert(self.cache.slot(ptr as int).wf());
        }
        if b.is_game_over() {
            let split = b.half_move_clock < 100 && b.black != 0 && b.white != 0 && cardinality(
                b.black,
            ) == cardinality(b.white);
            if split {
                return ONE / 2;
            }
            let w = winner(&b);
            if w == b.side_to_move {
                ONE
            } else if w == 1 - b.side_to_move {
                0
            } else {
                ONE / 2
            }
        } else {
            match &self.value {
                ValueKind::Network(net) => monty_network(net, &b),
                ValueKind::MaterialCount => material_count(&b),
            }
        }
    }

    /// Gives the node at a pointer one unexpanded edge per legal move,
    /// weighted by the heuristic priors: none for a finished game. A board
    /// with more moves than the move generator's list holds is left as it is.
    fn expand(&mut self, ptr: i32)
        requires
            old(self).wf(),
            old(self).spec_cache().valid(ptr as int),
            old(self).spec_cache().slot(ptr as int).edges@.len() == 0,
        ensures
            final(self).wf(),
            final(self).spec_playouts() == old(self).spec_playouts(),
            final(self).spec_nodes() == old(self).spec_nodes(),
            final(self).spec_cache().live() == old(self).spec_cache().live(),
            final(self).spec_cache().slot(ptr as int) == (Node {
                edges: final(self).spec_cache().slot(ptr as int).edges,
                ..old(self).spec_cache().slot(ptr as int)
            }),
            final(self).spec_cache().recency() == old(self).spec_cache().recency(),
            move_count_of(old(self).spec_cache().slot(ptr as int).position) <= 256 ==> expanded_edges(old(self).spec_cache().slot(ptr as int).position, final(self).spec_cache().slot(ptr as int).edges@),
            move_count_of(old(self).spec_cache().slot(ptr as int).position) > 256 ==> final(self).spec_cache().slot(ptr as int) == old(self).spec_cache().slot(ptr as int),
            old(self).spec_cache().slot(ptr as int).position.game_over() ==> final(self).spec_cache().slot(ptr as int).edges@.len() == 0,
            !old(self).spec_cache().slot(ptr as int).position.game_over() && move_count_of(old(self).spec_cache().slot(ptr as int).position) <= 256 ==> final(self).spec_cache().slot(ptr as int).edges@.len() >= 1,
            old(self).spec_cache().root_ptr() == final(self).spec_cache().root_ptr(),
            old(self).spec_cache().capacity() == final(self).spec_cache().capacity(),
            forall|s: int| 0 <= s < old(self).spec_cache().live() && s != ptr ==> #[trigger] final(self).spec_cache().slot(s) == old(self).spec_cache().slot(s),
            final(self).spec_root_position() == old(self).spec_root_position(),
            final(self).spec_leaf_depths() == old(self).spec_leaf_depths(),
    {
        let b = self.cache.node(ptr).position;
        proof {
            assert(self.cache.slot(ptr as int).wf());
        }
        let count = move_count(&b);
        if count > 256 {
            return;
        }
        let moves = legal_moves(&b);
        let ghost priors_spec = priors_of(b, moves@);
        let mut priors: Vec<u64> = Vec::with_capacity(moves.len());
        let mut i: usize = 0;
        while i < moves.len()
            invariant
                i <= moves@.len(),
                moves@.len() <= 256,
                moves@ == moves_of(b),
                priors_spec == priors_of(b, moves@),
                priors@.len() == i,
                forall|j: int| 0 <= j < i ==> #[trigger] priors@[j] == priors_spec[j],
                forall|j: int| 0 <= j < i ==> 1 <= #[trigger] priors@[j] <= 1000,
            decreases moves@.len() - i,
        {
            priors.push(handcrafted(&b, moves[i]));
            i = i + 1;
        }
        proof {
            assert(priors@ =~= priors_spec);
        }
        let weights = normalize(&priors);
        let mut edges: Vec<Edge> = Vec::with_capacity(moves.len());
        let mut i: usize = 0;
        while i < moves.len()
            invariant
                i <= moves@.len(),
                moves@ == moves_of(b),
                weights@.len() == moves@.len(),
                priors@ == priors_spec,
                priors_spec == priors_of(b, moves@),
                forall|j: int|
                    0 <= j < weights@.len() ==> #[trigger] weights@[j] == priors@[j] * ONE / (prior_sum(
                        priors@,
                    ) as int),
                edges@.len() == i,
                forall|j: int|
                    0 <= j < i ==> (#[trigger] edges@[j]).mov == moves@[j] && edges@[j].ptr
                        == NULL_PTR && edges@[j].policy == weights@[j],
            decreases moves@.len() - i,
        {
            let mut edge = Edge::new(moves[i]);
            edge.policy = weights[i];
            edges.push(edge);
            i = i + 1;
        }
        proof {
            assert forall|j: int| 0 <= j < edges@.len() implies #[trigger] edges@[j].ptr == NULL_PTR by {}
            let ws: Seq<u64> = edges@.map_values(|e: Edge| e.policy);
            assert(ws =~= weights@);
            lemma_policy_sums(edges@);
        }
        let ghost before = self.cache;
        self.cache.set_edges(ptr, edges);
        proof {
            assert forall|s: int| 0 <= s < self.cache.live() && s != ptr implies (s < before.live()
                && same_moves(#[trigger] self.cache.slot(s), before.slot(s))) by {
                assert(self.cache.slot(s) == before.slot(s));
            }
            lemma_tree_ok_kept(before, self.cache, self.root_position, ptr as int);
        }
    }
}

impl Tree {
    /// The edge of the node at `ptr` with the highest selection score; the
    /// first such edge on ties.
    fn select(&self, ptr: i32) -> (r: usize)
        requires
            self.wf(),
            self.spec_cache().valid(ptr as int),
            self.spec_cache().slot(ptr as int).edges@.len() > 0,
        ensures
            r < self.spec_cache().slot(ptr as int).edges@.len(),
            ({
                let c = self.spec_cache();
                let n = c.slot(ptr as int);
                let sq = crate::bits::spec_isqrt((n.playouts + 1) as u64);
                forall|j: int|
                    0 <= j < n.edges@.len() ==> edge_score(c, ptr as int, j, sq) <= edge_score(
                        c,
                        ptr as int,
                        r as int,
                        sq,
                    )
            }),
    {
        let node = self.cache.node(ptr);
        let ghost c = self.cache;
        proof {
            assert(c.slot(ptr as int).wf());
        }
        let sq = isqrt(node.playouts + 1);
        let mut best: usize = 0;
        let mut best_score: u64 = 0;
        let mut e: usize = 0;
        while e < node.edges.len()
            invariant
                self.wf(),
                c == self.cache,
                *node == c.slot(ptr as int),
                c.valid(ptr as int),
                sq == crate::bits::spec_isqrt((node.playouts + 1) as u64),
                sq <= 0x20_0000,
                e <= node.edges@.len(),
                node.edges@.len() > 0,
                best < node.edges@.len(),
                e > 0 ==> best < e && best_score == edge_score(c, ptr as int, best as int, sq as int),
                forall|j: int| 0 <= j < e ==> edge_score(c, ptr as int, j, sq as int) <= best_score,
            decreases node.edges@.len() - e,
        {
            let score = self.edge_score(ptr, e, sq);
            if e == 0 || score > best_score {
                best = e;
                best_score = score;
            }
            e = e + 1;
        }
        best
    }

    fn edge_score(&self, ptr: i32, e: usize, sq: u64) -> (r: u64)
        requires
            self.wf(),
            self.spec_cache().valid(ptr as int),
            e < self.spec_cache().slot(ptr as int).edges@.len(),
            sq <= 0x20_0000,
        ensures
            r == edge_score(self.spec_cache(), ptr as int, e as int, sq as int),
    {
        let c = &self.cache;
        let edge = c.edge(ptr, e as i32);
        proof {
            assert(c.slot(ptr as int).edges@[e as int] == c.slot(ptr as int).edges@[e as int]);
            assert(c.slot(ptr as int).wf());
        }
        let (n, q) = if edge.ptr == NULL_PTR {
            (0u64, 0u64)
        } else {
            let child = c.node(edge.ptr);
            proof {
                assert(c.slot(edge.ptr as int).wf());
            }
            if child.playouts == 0 {
                (0u64, 0u64)
            } else {
                proof {
                    crate::node::lemma_mean_bound(child.total_score as int, child.playouts as int);
                }
                (child.playouts, ONE - child.total_score / child.playouts)
            }
        };
        proof {
            crate::policy::lemma_weight_bound(c.slot(ptr as int).edges@, e as int);
        }
        assert(EXPLORATION * edge.policy * sq <= 141 * 1_000_000 * 0x20_0000) by (nonlinear_arith)
            requires
                edge.policy <= ONE,
                sq <= 0x20_0000,
        ;
        q + EXPLORATION * edge.policy * sq / (100 * (1 + n))
    }
}

impl Tree {
    /// Performs one playout: descends from the root by the selection rule,
    /// promoting each node it passes, expands the node it stops at if it
    /// has no edges yet, materializes the child behind the chosen edge when
    /// that edge is unexpanded, evaluates the leaf, and adds the result to
    /// every node on the path, flipping it at each step up. A tree without
    /// a root node (fresh, or its root evicted) gets one and ends the
    /// playout there. Returns the slot the playout ended at.
    pub fn playout(&mut self) -> (r: i32)
        requires
            old(self).wf(),
            old(self).spec_playouts() < MAX_PLAYOUTS,
        ensures
            final(self).wf(),
            final(self).spec_playouts() == old(self).spec_playouts() + 1,
            final(self).spec_nodes() == old(self).spec_nodes() || final(self).spec_nodes()
                == old(self).spec_nodes() + 1,
            final(self).spec_nodes() == old(self).spec_nodes() + 1 && old(self).spec_cache().live()
                < old(self).spec_cache().capacity() ==> r == old(self).spec_cache().live(),
            final(self).spec_cache().valid(r as int),
            final(self).spec_leaf_depths() == old(self).spec_leaf_depths().push(
                leaf_depth(final(self).spec_cache().slot(r as int).position, old(self).spec_root_position()),
            ),
            final(self).spec_cache().capacity() == old(self).spec_cache().capacity(),
            final(self).spec_root_position() == old(self).spec_root_position(),
            old(self).spec_cache().root_ptr() == NULL_PTR ==> final(self).spec_cache().root_ptr()
                == r && final(self).spec_cache().slot(r as int).position == old(
                self,
            ).spec_root_position(),
            old(self).spec_cache().root_ptr() != NULL_PTR ==> exists|path: Seq<i32>, along: Seq<int>|
                playout_trace(*old(self), *final(self), path, along, r),
            ({
                let root = old(self).spec_cache().root_ptr() as int;
                old(self).spec_cache().root_ptr() != NULL_PTR && final(self).spec_cache().root_ptr()
                    == root && old(self).spec_cache().slot(root).playouts < MAX_NODE_PLAYOUTS
                    ==> final(self).spec_cache().slot(root).playouts == old(
                    self,
                ).spec_cache().slot(root).playouts + 1
            }),
    {
        let root = self.root();
        if root == NULL_PTR {
            let ghost c0 = self.cache;
            let ptr = self.cache.push(Node::new(self.root_position, NULL_PTR, NULL_PTR));
            let ghost c1 = self.cache;
            proof {
                lemma_push_keeps(c0, c1, ptr as int, self.root_position);
            }
            self.cache.link(NULL_PTR, NULL_PTR, ptr);
            proof {
                lemma_link_keeps(c1, self.cache, NULL_PTR, 0, ptr, self.root_position);
            }
            self.playouts = self.playouts + 1;
            self.nodes = self.nodes + 1;
            let v = self.evaluate(ptr);
            let ghost c2 = self.cache;
            self.cache.record(ptr, v);
            proof {
                lemma_record_keeps(c2, self.cache, ptr as int, self.root_position);
            }
            self.leaf_depths = Ghost(
                self.leaf_depths@.push(leaf_depth(self.cache.slot(ptr as int).position, self.root_position)),
            );
            return ptr;
        }
        let ghost start = *self;
        self.playouts = self.playouts + 1;
        let mut path: Vec<i32> = Vec::new();
        path.push(root);
        let mut cur = root;
        let ghost mut along: Seq<int> = Seq::empty();
        let ghost mut fresh: bool = false;
        proof {
            self.cache.lemma_root_symmetry();
        }
        loop
            invariant_except_break
                self.nodes == start.nodes,
                self.cache.live() == start.cache.live(),
                !fresh,
                forall|s: int|
                    0 <= s < self.cache.live() ==> (#[trigger] self.cache.slot(s)).playouts
                        == start.cache.slot(s).playouts && self.cache.slot(s).total_score
                        == start.cache.slot(s).total_score,
                forall|i: int|
                    0 <= i < path@.len() ==> self.cache.slot(#[trigger] path@[i] as int).position.ply_count
                        == self.cache.slot(root as int).position.ply_count + i,
            invariant
                fresh <==> self.nodes == start.nodes + 1,
                ({
                    let n = path@.len() as int;
                    !(fresh && path@.subrange(0, n - 1).contains(cur)) ==> {
                        &&& links(self.cache, path@, along)
                        &&& path@.no_duplicates()
                        &&& forall|i: int|
                            0 <= i < n ==> (if fresh && i == n - 1 {
                                (#[trigger] self.cache.slot(path@[i] as int)).playouts == 0
                                    && self.cache.slot(path@[i] as int).total_score == 0
                            } else {
                                self.cache.slot(path@[i] as int).playouts == start.cache.slot(
                                    path@[i] as int,
                                ).playouts && self.cache.slot(path@[i] as int).total_score
                                    == start.cache.slot(path@[i] as int).total_score
                            })
                    }
                }),
                self.wf(),
                self.playouts == start.playouts + 1,
                start.nodes <= start.playouts,
                self.root_position == start.root_position,
                self.leaf_depths == start.leaf_depths,
                self.cache.capacity() == start.cache.capacity(),
                start.cache.live() <= self.cache.live(),
                self.nodes == start.nodes || (self.nodes == start.nodes + 1 && (start.cache.live()
                    < start.cache.capacity() ==> cur == start.cache.live())),
                self.cache.valid(cur as int),
                path@.len() >= 1,
                path@[0] == root,
                path@[path@.len() - 1] == cur,
                forall|i: int| 0 <= i < path@.len() ==> 0 <= #[trigger] path@[i] < self.cache.live(),
                self.cache.root_ptr() == root || self.cache.root_ptr() == NULL_PTR,
                self.cache.root_ptr() == root ==> self.cache.slot(root as int).playouts
                    == start.cache.slot(root as int).playouts,
                self.cache.root_ptr() == root ==> forall|i: int|
                    1 <= i < path@.len() ==> self.cache.slot(#[trigger] path@[i] as int).position.ply_count
                        > self.cache.slot(root as int).position.ply_count,
                self.cache.root_ptr() == root ==> (cur == root || self.cache.slot(cur as int).position.ply_count
                    > self.cache.slot(root as int).position.ply_count),
            ensures
                !fresh ==> ({
                    let m = self.cache.slot(cur as int);
                    !m.position.game_over() && move_count_of(m.position) <= 256 ==> m.edges@.len() > 0
                }),
                !fresh ==> ({
                    let m = self.cache.slot(cur as int);
                    m.position.game_over() || m.edges@.len() == 0 || exists|e: int|
                        0 <= e < m.edges@.len() && #[trigger] m.edges@[e].ptr == NULL_PTR
                }),
            decreases u16::MAX - self.cache.slot(cur as int).position.ply_count,
        {
            let ghost c0 = self.cache;
            self.cache.promote(cur);
            proof {
                assert(self.cache.slot(cur as int).wf());
                assert forall|s: int| 0 <= s < self.cache.live() implies (s < c0.live() && same_moves(
                    #[trigger] self.cache.slot(s),
                    c0.slot(s),
                )) by {
                    assert(self.cache.slot(s) == c0.slot(s));
                }
                lemma_tree_ok_kept(c0, self.cache, self.root_position, -1);
                lemma_links_kept(c0, self.cache, path@, along);
            }
            if self.cache.node(cur).is_terminal() {
                break ;
            }
            if self.cache.node(cur).len() == 0 {
                let ghost c4 = self.cache;
                self.expand(cur);
                proof {
                    assert forall|i: int| 0 <= i < along.len() implies #[trigger] self.cache.slot(
                        path@[i] as int,
                    ).edges == c4.slot(path@[i] as int).edges by {
                        assert(c4.slot(path@[i] as int).position.ply_count == c4.slot(
                            root as int,
                        ).position.ply_count + i);
                        assert(c4.slot(path@[path@.len() - 1] as int).position.ply_count == c4.slot(
                            root as int,
                        ).position.ply_count + path@.len() - 1);
                    }
                    lemma_links_kept(c4, self.cache, path@, along);
                }
                if self.cache.node(cur).len() == 0 {
                    break ;
                }
            }
            let e = self.select(cur);
            proof {
                assert(self.cache.slot(cur as int).wf());
            }
            let edge = self.cache.edge(cur, e as i32);
            let child = edge.ptr;
            let mov = edge.mov;
            if child == NULL_PTR {
                proof {
                    assert(self.cache.slot(cur as int).edges@[e as int].ptr == NULL_PTR);
                }
                let board = self.cache.node(cur).position;
                if self.cache.next_slot() != cur && board.ply_count < u16::MAX {
                    let next = play(&board, mov);
                    proof {
                        self.cache.lemma_wf_facts();
                    }
                    let ghost c1 = self.cache;
                    let ghost old_path = path@;
                    let ptr = self.cache.push(Node::new(next, cur, e as i32));
                    proof {
                        lemma_push_keeps(c1, self.cache, ptr as int, self.root_position);
                    }
                    let ghost c2 = self.cache;
                    self.cache.link(cur, e as i32, ptr);
                    proof {
                        lemma_link_keeps(c2, self.cache, cur, e as int, ptr, self.root_position);
                    }
                    self.nodes = self.nodes + 1;
                    path.push(ptr);
                    proof {
                        fresh = true;
                        let n = path@.len() as int;
                        assert(path@.subrange(0, n - 1) =~= old_path);
                        if !old_path.contains(ptr) {
                            assert forall|i: int| 0 <= i < old_path.len() implies #[trigger] old_path[i]
                                != ptr by {
                                if old_path[i] == ptr {
                                    assert(old_path.contains(ptr));
                                }
                            }
                            lemma_after_materialize(c1, c2, self.cache, old_path, along, cur, e as int, ptr);
                            along = along.push(e as int);
                        }
                    }
                    cur = ptr;
                }
                break ;
            }
            proof {
                assert(self.cache.slot(cur as int).edges@[e as int] == self.cache.slot(
                    cur as int,
                ).edges@[e as int]);
            }
            let ghost old_path = path@;
            path.push(child);
            proof {
                let n = old_path.len() as int;
                along = along.push(e as int);
                assert(path@[n] == child);
                assert forall|i: int| 0 <= i < path@.len() implies self.cache.slot(
                    #[trigger] path@[i] as int,
                ).position.ply_count == self.cache.slot(root as int).position.ply_count + i by {
                    if i < n {
                        assert(path@[i] == old_path[i]);
                    }
                }
                assert forall|i: int, j: int|
                    0 <= i < path@.len() && 0 <= j < path@.len() && i != j implies path@[i]
                        != path@[j] by {
                    assert(self.cache.slot(path@[i] as int).position.ply_count == self.cache.slot(
                        root as int,
                    ).position.ply_count + i);
                    assert(self.cache.slot(path@[j] as int).position.ply_count == self.cache.slot(
                        root as int,
                    ).position.ply_count + j);
                }
                assert forall|i: int| 0 <= i < along.len() implies 0 <= along[i] < self.cache.slot(
                    path@[i] as int,
                ).edges@.len() && #[trigger] self.cache.slot(path@[i] as int).edges@[along[i]].ptr
                    == path@[i + 1] by {
                    if i < n - 1 {
                        assert(path@[i] == old_path[i] && path@[i + 1] == old_path[i + 1]);
                    }
                }
            }
            cur = child;
        }
        let mut v = self.evaluate(cur);
        let mut i = path.len();
        let ghost mid = self.cache;
        let ghost v0 = v as int;
        let ghost n = path@.len() as int;
        let ghost ok = !(fresh && path@.subrange(0, n - 1).contains(cur));
        while i > 0
            invariant
                n == path@.len(),
                fresh <==> self.nodes == start.nodes + 1,
                v0 == spec_value(self.value, mid.slot(cur as int).position),
                v0 <= ONE,
                v == backed_value(v0, n - i),
                self.cache.live() == mid.live(),
                forall|s: int|
                    0 <= s < mid.live() ==> (#[trigger] self.cache.slot(s)).position == mid.slot(
                        s,
                    ).position && self.cache.slot(s).edges == mid.slot(s).edges,
                ok ==> links(mid, path@, along),
                ok ==> path@.no_duplicates(),
                ok ==> forall|j: int|
                    i <= j < n ==> recorded(
                        mid.slot(path@[j] as int).playouts,
                        mid.slot(path@[j] as int).total_score,
                        #[trigger] self.cache.slot(path@[j] as int),
                        backed_value(v0, n - 1 - j),
                    ),
                ok ==> forall|j: int|
                    0 <= j < i ==> (#[trigger] self.cache.slot(path@[j] as int)).playouts == mid.slot(
                        path@[j] as int,
                    ).playouts && self.cache.slot(path@[j] as int).total_score == mid.slot(
                        path@[j] as int,
                    ).total_score,
                path@.len() >= 1,
                path@[0] == root,
                self.cache.root_ptr() == mid.root_ptr(),
                mid.root_ptr() == root ==> forall|j: int|
                    1 <= j < path@.len() ==> #[trigger] path@[j] != root,
                mid.root_ptr() == root ==> self.cache.slot(root as int).playouts == if i == 0
                    && mid.slot(root as int).playouts < MAX_NODE_PLAYOUTS {
                    mid.slot(root as int).playouts + 1
                } else {
                    mid.slot(root as int).playouts as int
                },
                self.wf(),
                i <= path@.len(),
                v <= ONE,
                self.nodes <= start.nodes + 1,
                start.nodes <= start.playouts,
                self.playouts == start.playouts + 1,
                self.leaf_depths == start.leaf_depths,
                self.root_position == start.root_position,
                self.cache.capacity() == start.cache.capacity(),
                self.cache.valid(cur as int),
                forall|j: int| 0 <= j < path@.len() ==> 0 <= #[trigger] path@[j] < self.cache.live(),
                self.nodes == start.nodes || (self.nodes == start.nodes + 1 && (start.cache.live()
                    < start.cache.capacity() ==> cur == start.cache.live())),
            decreases i,
        {
            i = i - 1;
            let ghost c3 = self.cache;
            proof {
                if v0 >= 0 {
                }
                assert(v <= ONE) by {
                    assert(backed_value(v0, n - 1 - i) <= ONE);
                }
            }
            self.cache.record(path[i], v);
            proof {
                lemma_record_keeps(c3, self.cache, path@[i as int] as int, self.root_position);
                if ok {
                    assert forall|j: int| i <= j < n implies recorded(
                        mid.slot(path@[j] as int).playouts,
                        mid.slot(path@[j] as int).total_score,
                        #[trigger] self.cache.slot(path@[j] as int),
                        backed_value(v0, n - 1 - j),
                    ) by {
                        if j > i {
                            assert(path@[j] != path@[i as int]);
                            assert(self.cache.slot(path@[j] as int) == c3.slot(path@[j] as int));
                            assert(recorded(
                                mid.slot(path@[j] as int).playouts,
                                mid.slot(path@[j] as int).total_score,
                                c3.slot(path@[j] as int),
                                backed_value(v0, n - 1 - j),
                            ));
                        } else {
                            assert(c3.slot(path@[j] as int).playouts == mid.slot(path@[j] as int).playouts);
                            assert(c3.slot(path@[j] as int).total_score == mid.slot(path@[j] as int).total_score);
                            assert(v as int == backed_value(v0, n - 1 - j));
                            assert(path@[j] == path@[i as int]);
                        }
                    }
                    assert forall|j: int| 0 <= j < i implies (#[trigger] self.cache.slot(
                        path@[j] as int,
                    )).playouts == mid.slot(path@[j] as int).playouts && self.cache.slot(
                        path@[j] as int,
                    ).total_score == mid.slot(path@[j] as int).total_score by {
                        assert(path@[j] != path@[i as int]);
                        assert(self.cache.slot(path@[j] as int) == c3.slot(path@[j] as int));
                    }
                }
                assert forall|s: int| 0 <= s < mid.live() implies (#[trigger] self.cache.slot(
                    s,
                )).position == mid.slot(s).position && self.cache.slot(s).edges == mid.slot(s).edges by {
                    assert(c3.slot(s).position == mid.slot(s).position);
                }
                let k = n - 1 - i;
                assert(ONE - backed_value(v0, k) == backed_value(v0, k + 1)) by {
                    if k % 2 == 0 {
                        assert((k + 1) % 2 == 1);
                    } else {
                        assert((k + 1) % 2 == 0);
                    }
                }
            }
            v = ONE - v;
        }
        proof {
            if ok {
                assert forall|j: int| 0 <= j < along.len() implies #[trigger] self.cache.slot(
                    path@[j] as int,
                ).edges == mid.slot(path@[j] as int).edges by {}
                lemma_links_kept(mid, self.cache, path@, along);
                assert forall|j: int|
                    0 <= j < n && !(fresh && j == n - 1) implies {
                        let m = #[trigger] self.cache.slot(path@[j] as int);
                        !m.position.game_over() && move_count_of(m.position) <= 256 ==> m.edges@.len() > 0
                    } by {
                    assert(self.cache.slot(path@[j] as int).edges == mid.slot(path@[j] as int).edges);
                    if j < n - 1 {
                        assert(0 <= along[j] < mid.slot(path@[j] as int).edges@.len());
                    }
                }
            }
            assert(self.cache.slot(cur as int).position == mid.slot(cur as int).position);
        }
        self.leaf_depths = Ghost(
            self.leaf_depths@.push(leaf_depth(self.cache.slot(cur as int).position, self.root_position)),
        );
        proof {
            assert(playout_trace(start, *self, path@, along, cur));
        }
        cur
    }
}

impl Tree {
    /// The root edge whose child has the most playouts; the first such edge
    /// on ties.
    pub fn best_edge(&self) -> (r: usize)
        requires
            self.wf(),
            self.spec_cache().root_ptr() != NULL_PTR,
            self.spec_cache().slot(self.spec_cache().root_ptr() as int).edges@.len() > 0,
        ensures
            ({
                let c = self.spec_cache();
                let root = c.root_ptr() as int;
                &&& r < c.slot(root).edges@.len()
                &&& forall|j: int|
                    0 <= j < c.slot(root).edges@.len() ==> visits(c, root, j) <= visits(
                        c,
                        root,
                        r as int,
                    )
                &&& forall|j: int| 0 <= j < r ==> visits(c, root, j) < visits(c, root, r as int)
            }),
    {
        let root = self.root();
        let c = &self.cache;
        let node = c.node(root);
        let mut best: usize = 0;
        let mut best_visits: u64 = 0;
        let mut e: usize = 0;
        while e < node.edges.len()
            invariant
                self.wf(),
                c == &self.cache,
                root == c.root_ptr(),
                c.valid(root as int),
                *node == c.slot(root as int),
                e <= node.edges@.len(),
                node.edges@.len() > 0,
                best < node.edges@.len(),
                e > 0 ==> best < e && best_visits == visits(*c, root as int, best as int),
                e == 0 ==> best == 0,
                forall|j: int| 0 <= j < e ==> visits(*c, root as int, j) <= best_visits,
                forall|j: int| 0 <= j < best ==> visits(*c, root as int, j) < best_visits,
            decreases node.edges@.len() - e,
        {
            proof {
                assert(c.slot(root as int).wf());
            }
            let edge = c.edge(root, e as i32);
            proof {
                assert(c.slot(root as int).edges@[e as int] == c.slot(root as int).edges@[e as int]);
            }
            let v = if edge.ptr == NULL_PTR {
                0
            } else {
                c.node(edge.ptr).playouts
            };
            if e == 0 || v > best_visits {
                best = e;
                best_visits = v;
            }
            e = e + 1;
        }
        best
    }

    /// The move of the root edge whose child has the most playouts.
    pub fn best_move(&self) -> (r: ataxx::Move)
        requires
            self.wf(),
            self.spec_cache().root_ptr() != NULL_PTR,
            self.spec_cache().slot(self.spec_cache().root_ptr() as int).edges@.len() > 0,
        ensures
            ({
                let c = self.spec_cache();
                let root = c.root_ptr() as int;
                exists|k: int|
                    0 <= k < c.slot(root).edges@.len() && r == c.slot(root).edges@[k].mov && r
                        == moves_of(self.spec_root_position())[k] && k < moves_of(
                        self.spec_root_position(),
                    ).len() && (forall|
                        j: int,
                    |
                        0 <= j < c.slot(root).edges@.len() ==> visits(c, root, j) <= visits(
                            c,
                            root,
                            k,
                        ))
            }),
    {
        let e = self.best_edge();
        let root = self.root();
        proof {
            assert(self.cache.slot(root as int).wf());
            assert(moves_match(self.cache.slot(root as int)));
            assert(self.cache.slot(root as int).edges@[e as int].mov == moves_of(
                self.cache.slot(root as int).position,
            )[e as int]);
        }
        self.cache.edge(root, e as i32).mov
    }

    /// Runs playouts until the playout count reaches the next multiple of
    /// `CHECKPOINT`. Returns the largest depth below the root position that
    /// a playout ended at, or `depth` if that is larger.
    pub fn run_until_checkpoint(&mut self, depth: u16) -> (r: (u16, u16))
        requires
            old(self).wf(),
            old(self).spec_playouts() + CHECKPOINT <= MAX_PLAYOUTS,
        ensures
            final(self).wf(),
            final(self).spec_playouts() % CHECKPOINT == 0,
            old(self).spec_playouts() < final(self).spec_playouts() <= old(self).spec_playouts()
                + CHECKPOINT,
            old(self).spec_nodes() <= final(self).spec_nodes() <= old(self).spec_nodes() + (
            final(self).spec_playouts() - old(self).spec_playouts()),
            final(self).spec_root_position() == old(self).spec_root_position(),
            final(self).spec_leaf_depths().len() == old(self).spec_leaf_depths().len() + (
            final(self).spec_playouts() - old(self).spec_playouts()),
            final(self).spec_leaf_depths().subrange(0, old(self).spec_leaf_depths().len() as int)
                == old(self).spec_leaf_depths(),
            r.0 == max_depth(
                depth as int,
                final(self).spec_leaf_depths().subrange(
                    old(self).spec_leaf_depths().len() as int,
                    final(self).spec_leaf_depths().len() as int,
                ),
            ),
            r.1 == final(self).spec_leaf_depths().last(),
    {
        let ghost start = *self;
        let mut seldepth = depth;
        let mut last: u16 = 0;
        let ghost next: int = start.playouts - (start.playouts as int) % (CHECKPOINT as int) + CHECKPOINT;
        proof {
            let n = self.leaf_depths@.len() as int;
            assert(self.leaf_depths@.subrange(0, n) =~= self.leaf_depths@);
            assert(self.leaf_depths@.subrange(n, n) =~= Seq::<int>::empty());
        }
        loop
            invariant_except_break
                self.playouts < next,
            invariant
                self.wf(),
                self.root_position == start.root_position,
                start.playouts <= self.playouts <= next,
                next == start.playouts - (start.playouts as int) % (CHECKPOINT as int) + CHECKPOINT,
                start.nodes <= self.nodes <= start.nodes + (self.playouts - start.playouts),
                start.playouts + CHECKPOINT <= MAX_PLAYOUTS,
                self.leaf_depths@.len() == start.leaf_depths@.len() + (self.playouts - start.playouts),
                self.leaf_depths@.subrange(0, start.leaf_depths@.len() as int) == start.leaf_depths@,
                seldepth == max_depth(
                    depth as int,
                    self.leaf_depths@.subrange(
                        start.leaf_depths@.len() as int,
                        self.leaf_depths@.len() as int,
                    ),
                ),
            ensures
                self.playouts % CHECKPOINT == 0,
                start.playouts < self.playouts,
                last == self.leaf_depths@.last(),
            decreases next - self.playouts,
        {
            let ghost before = self.leaf_depths@;
            let leaf = self.playout();
            let ply = self.cache.node(leaf).position.ply_count;
            let base = self.root_position.ply_count;
            last = if ply > base {
                ply - base
            } else {
                0
            };
            if last > seldepth {
                seldepth = last;
            }
            proof {
                let a = start.leaf_depths@.len() as int;
                let l = self.leaf_depths@;
                assert(l.subrange(a, l.len() as int).drop_last() =~= before.subrange(a, before.len() as int));
                assert(l.subrange(0, a) =~= before.subrange(0, a));
            }
            if self.playouts % CHECKPOINT == 0 {
                break ;
            }
            proof {
                if self.playouts == next {
                    assert((next as int) % (CHECKPOINT as int) == 0);
                }
            }
        }
        (seldepth, last)
    }
}

/// Materializing the child behind edge `e` of the path's last slot `cur`
/// into a slot `ptr` off the path extends the path by one link and keeps
/// the path's nodes.
proof fn lemma_after_materialize(
    c1: Cache,
    c2: Cache,
    c3: Cache,
    path: Seq<i32>,
    along: Seq<int>,
    cur: i32,
    e: int,
    ptr: i32,
)
    requires
        links(c1, path, along),
        path.no_duplicates(),
        path.len() >= 1,
        path[path.len() - 1] == cur,
        forall|i: int| 0 <= i < path.len() ==> 0 <= #[trigger] path[i] < c1.live(),
        forall|i: int| 0 <= i < path.len() ==> #[trigger] path[i] != ptr,
        0 <= e < c1.slot(cur as int).edges@.len(),
        c1.live() <= c2.live(),
        c2.live() == c3.live(),
        0 <= ptr < c2.live(),
        c2.slot(ptr as int).playouts == 0,
        c2.slot(ptr as int).total_score == 0,
        forall|s: int|
            0 <= s < c1.live() && s != ptr ==> crate::lru::unlinked_from(
                #[trigger] c2.slot(s),
                c1.slot(s),
                ptr as int,
            ),
        c3.slot(cur as int).edges@ == c2.slot(cur as int).edges@.update(
            e,
            Edge { ptr: ptr, ..c2.slot(cur as int).edges@[e] },
        ),
        c3.slot(cur as int) == (Node { edges: c3.slot(cur as int).edges, ..c2.slot(cur as int) }),
        forall|s: int| 0 <= s < c2.live() && s != cur ==> #[trigger] c3.slot(s) == c2.slot(s),
    ensures
        links(c3, path.push(ptr), along.push(e)),
        path.push(ptr).no_duplicates(),
        c3.slot(ptr as int).playouts == 0,
        c3.slot(ptr as int).total_score == 0,
        forall|i: int|
            0 <= i < path.len() ==> (#[trigger] c3.slot(path[i] as int)).playouts == c1.slot(
                path[i] as int,
            ).playouts && c3.slot(path[i] as int).total_score == c1.slot(path[i] as int).total_score,
{
    let p2 = path.push(ptr);
    let a2 = along.push(e);
    assert(c3.slot(ptr as int) == c2.slot(ptr as int));
    assert forall|i: int| 0 <= i < path.len() implies (#[trigger] c3.slot(path[i] as int)).playouts
        == c1.slot(path[i] as int).playouts && c3.slot(path[i] as int).total_score == c1.slot(
        path[i] as int,
    ).total_score by {
        assert(crate::lru::unlinked_from(c2.slot(path[i] as int), c1.slot(path[i] as int), ptr as int));
    }
    assert forall|i: int| 0 <= i < a2.len() implies 0 <= a2[i] < c3.slot(p2[i] as int).edges@.len()
        && #[trigger] c3.slot(p2[i] as int).edges@[a2[i]].ptr == p2[i + 1] by {
        if i == along.len() {
            assert(p2[i] == cur);
            assert(crate::lru::unlinked_from(c2.slot(cur as int), c1.slot(cur as int), ptr as int));
        } else {
            assert(p2[i] == path[i] && p2[i + 1] == path[i + 1]);
            assert(path[i] != cur);
            assert(c1.slot(path[i] as int).edges@[along[i]].ptr == path[i + 1]);
            assert(crate::lru::unlinked_from(c2.slot(path[i] as int), c1.slot(path[i] as int), ptr as int));
            assert(c2.slot(path[i] as int).edges@[along[i]].ptr == path[i + 1]);
        }
    }
    assert forall|i: int, j: int| 0 <= i < j < p2.len() implies p2[i] != p2[j] by {
        if j < path.len() {
            assert(p2[i] == path[i] && p2[j] == path[j]);
        } else {
            assert(p2[i] == path[i]);
        }
    }
}

proof fn lemma_links_kept(a: Cache, b: Cache, path: Seq<i32>, along: Seq<int>)
    requires
        links(a, path, along),
        forall|i: int|
            0 <= i < along.len() ==> #[trigger] b.slot(path[i] as int).edges == a.slot(
                path[i] as int,
            ).edges,
    ensures
        links(b, path, along),
{
    assert forall|i: int| 0 <= i < along.len() implies 0 <= along[i] < b.slot(path[i] as int).edges@.len()
        && #[trigger] b.slot(path[i] as int).edges@[along[i]].ptr == path[i + 1] by {
        assert(b.slot(path[i] as int).edges == a.slot(path[i] as int).edges);
        assert(a.slot(path[i] as int).edges@[along[i]].ptr == path[i + 1]);
    }
}

proof fn lemma_push_keeps(a: Cache, b: Cache, r: int, pos: Board)
    requires
        tree_ok(a, pos),
        a.wf(),
        0 <= r < b.live(),
        b.slot(r).edges@.len() == 0,
        b.live() == a.live() || (b.live() == a.live() + 1 && r == a.live()),
        forall|s: int|
            0 <= s < a.live() && s != r ==> crate::lru::unlinked_from(
                #[trigger] b.slot(s),
                a.slot(s),
                r,
            ),
        b.root_ptr() == if a.root_ptr() == r {
            NULL_PTR
        } else {
            a.root_ptr()
        },
        b.wf(),
    ensures
        tree_ok(b, pos),
{
    assert forall|s: int| 0 <= s < b.live() && s != r implies (s < a.live() && same_moves(
        #[trigger] b.slot(s),
        a.slot(s),
    )) by {
        assert(crate::lru::unlinked_from(b.slot(s), a.slot(s), r));
        assert forall|i: int| 0 <= i < b.slot(s).edges@.len() implies #[trigger] b.slot(s).edges@[i].mov
            == a.slot(s).edges@[i].mov && b.slot(s).edges@[i].policy == a.slot(s).edges@[i].policy by {
            assert(b.slot(s).edges@[i].mov == a.slot(s).edges@[i].mov);
        }
    }
    lemma_tree_ok_kept(a, b, pos, r);
}

proof fn lemma_link_keeps(a: Cache, b: Cache, parent: i32, e: int, child: i32, pos: Board)
    requires
        tree_ok(a, pos),
        b.live() == a.live(),
        parent == NULL_PTR ==> b.root_ptr() == child && a.slot(child as int).position == pos,
        parent == NULL_PTR ==> forall|s: int| 0 <= s < a.live() ==> #[trigger] b.slot(s) == a.slot(s),
        parent != NULL_PTR ==> b.root_ptr() == a.root_ptr(),
        parent != NULL_PTR ==> 0 <= parent < a.live() && 0 <= e < a.slot(parent as int).edges@.len(),
        parent != NULL_PTR ==> b.slot(parent as int).edges@ == a.slot(parent as int).edges@.update(
            e,
            Edge { ptr: child, ..a.slot(parent as int).edges@[e] },
        ),
        parent != NULL_PTR ==> b.slot(parent as int) == (Node {
            edges: b.slot(parent as int).edges,
            ..a.slot(parent as int)
        }),
        parent != NULL_PTR ==> forall|s: int|
            0 <= s < a.live() && s != parent ==> #[trigger] b.slot(s) == a.slot(s),
        0 <= child < a.live(),
        b.wf(),
    ensures
        tree_ok(b, pos),
{
    assert forall|s: int| 0 <= s < b.live() implies (s < a.live() && same_moves(
        #[trigger] b.slot(s),
        a.slot(s),
    )) by {
        if parent != NULL_PTR && s == parent {
            assert forall|i: int| 0 <= i < b.slot(s).edges@.len() implies #[trigger] b.slot(
                s,
            ).edges@[i].mov == a.slot(s).edges@[i].mov && b.slot(s).edges@[i].policy == a.slot(
                s,
            ).edges@[i].policy by {
                if i == e {
                } else {
                    assert(b.slot(s).edges@[i] == a.slot(s).edges@[i]);
                }
            }
        } else {
            assert(b.slot(s) == a.slot(s));
        }
    }
    if parent == NULL_PTR {
        assert(b.slot(child as int) == a.slot(child as int));
        assert(moves_match(a.slot(child as int)));
        lemma_tree_ok_kept(a, b, pos, child as int);
    } else {
        lemma_tree_ok_kept(a, b, pos, -1);
    }
}

proof fn lemma_record_keeps(a: Cache, b: Cache, ptr: int, pos: Board)
    requires
        tree_ok(a, pos),
        b.live() == a.live(),
        b.root_ptr() == a.root_ptr(),
        0 <= ptr < a.live(),
        b.slot(ptr).position == a.slot(ptr).position,
        b.slot(ptr).edges == a.slot(ptr).edges,
        forall|s: int| 0 <= s < a.live() && s != ptr ==> #[trigger] b.slot(s) == a.slot(s),
        b.wf(),
    ensures
        tree_ok(b, pos),
{
    assert forall|s: int| 0 <= s < b.live() implies (s < a.live() && same_moves(
        #[trigger] b.slot(s),
        a.slot(s),
    )) by {
        if s != ptr {
            assert(b.slot(s) == a.slot(s));
        }
    }
    lemma_tree_ok_kept(a, b, pos, -1);
}

/// The weight sum of an edge list is the sum of its weights.
proof fn lemma_policy_sums(edges: Seq<Edge>)
    ensures
        crate::node::policy_sum(edges) == crate::policy::weight_sum(
            edges.map_values(|e: Edge| e.policy),
        ),
    decreases edges.len(),
{
    if edges.len() > 0 {
        lemma_policy_sums(edges.drop_last());
        assert(edges.drop_last().map_values(|e: Edge| e.policy) =~= edges.map_values(
            |e: Edge| e.policy,
        ).drop_last());
    }
}

} // verus!
