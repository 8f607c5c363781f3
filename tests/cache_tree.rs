use mexx::board::{legal_moves, null_move, play, Board};
use mexx::lru::Cache;
use mexx::node::{Edge, Node, NULL_PTR, ONE};
use mexx::tree::{Tree, ValueKind};

const A1: u64 = 1 << 0;
const G1: u64 = 1 << 6;
const A7: u64 = 1 << 42;
const G7: u64 = 1 << 48;

fn start_position() -> Board {
    Board::new(G1 | A7, A1 | G7, 0, 0, 0, 0)
}

fn unexpanded_edges(n: usize) -> Vec<Edge> {
    let mut edges = Vec::new();
    for i in 0..n {
        let mut e = Edge::new(null_move());
        e.policy = if i == 0 { ONE - (n as u64 - 1) * (ONE / n as u64) } else { ONE / n as u64 };
        edges.push(e);
    }
    edges
}

/// Every edge pointer of every live slot leads back to that edge.
fn assert_symmetric(c: &Cache) {
    let root = c.edge(NULL_PTR, 0).ptr;
    if root != NULL_PTR {
        assert_eq!(c.node(root).parent_node, NULL_PTR);
    }
    for s in 0..c.len() as i32 {
        let node = c.node(s);
        for e in 0..node.len() {
            let t = node.edge(e).ptr;
            if t != NULL_PTR {
                assert!((t as usize) < c.len());
                assert_eq!(c.node(t).parent_node, s);
                assert_eq!(c.node(t).parent_edge, e as i32);
            }
        }
    }
}

#[test]
fn push_fills_void_slots_first() {
    let mut c = Cache::new(3);
    assert_eq!(c.next_slot(), 0);
    let r = c.push(Node::new(start_position(), NULL_PTR, NULL_PTR));
    assert_eq!(r, 0);
    c.link(NULL_PTR, NULL_PTR, r);
    assert_eq!(c.next_slot(), 1);
    assert_eq!(c.len(), 1);
    assert_eq!(c.cap(), 3);
}

#[test]
fn eviction_resets_the_referencing_edge() {
    let mut c = Cache::new(2);
    let root = c.push(Node::new(start_position(), NULL_PTR, NULL_PTR));
    c.link(NULL_PTR, NULL_PTR, root);
    c.set_edges(root, unexpanded_edges(2));
    let child_board = Board::new(G1 | A7, A1 | G7, 0, 1, 1, 1);
    let a = c.push(Node::new(child_board, root, 0));
    c.link(root, 0, a);
    assert_eq!(c.edge(root, 0).ptr, a);
    // The root is now the least recently used slot; promote it so that the
    // child is evicted by the next push.
    c.promote(root);
    assert_eq!(c.next_slot(), a);
    let b = c.push(Node::new(child_board, root, 1));
    assert_eq!(b, a);
    assert_eq!(c.edge(root, 0).ptr, NULL_PTR);
    c.link(root, 1, b);
    assert_eq!(c.edge(root, 1).ptr, b);
    assert_symmetric(&c);
}

#[test]
fn evicting_the_root_clears_the_root_edge() {
    let mut c = Cache::new(1);
    let root = c.push(Node::new(start_position(), NULL_PTR, NULL_PTR));
    c.link(NULL_PTR, NULL_PTR, root);
    let other = c.push(Node::new(start_position(), NULL_PTR, NULL_PTR));
    assert_eq!(other, root);
    assert_eq!(c.edge(NULL_PTR, 0).ptr, NULL_PTR);
}

#[test]
fn record_accumulates_results() {
    let mut c = Cache::new(1);
    let r = c.push(Node::new(start_position(), NULL_PTR, NULL_PTR));
    c.record(r, 250_000);
    c.record(r, 750_000);
    assert_eq!(c.node(r).playouts, 2);
    assert_eq!(c.node(r).total_score, 1_000_000);
    assert_eq!(c.node(r).q(), 500_000);
}

#[test]
fn memory_budget_sizes_the_cache() {
    let c = Cache::new_mib(1);
    assert_eq!(c.cap(), 1024 * 1024 / 64 / 60);
}

#[test]
fn playouts_count_one_by_one() {
    let mut t = Tree::new(start_position(), 1000, ValueKind::MaterialCount);
    for i in 0..50u64 {
        let before = t.nodes();
        t.playout();
        assert_eq!(t.playouts(), i + 1);
        assert!(t.nodes() == before || t.nodes() == before + 1);
    }
}

#[test]
fn first_playouts_make_root_then_one_child() {
    let mut t = Tree::new(start_position(), 1 << 20, ValueKind::MaterialCount);
    let root = t.playout();
    assert_eq!(t.nodes(), 1);
    assert_eq!(t.root(), root);
    let leaf = t.playout();
    assert_eq!(t.nodes(), 2);
    let moves = legal_moves(&start_position());
    assert_eq!(t.node(root).len(), moves.len());
    // The first selection follows the highest prior, the first one on ties.
    let mut best = 0;
    for e in 0..t.node(root).len() {
        if t.node(root).edge(e).policy > t.node(root).edge(best).policy {
            best = e;
        }
    }
    assert_eq!(t.node(root).edge(best).ptr, leaf);
    assert_eq!(t.best_edge(), best);
    assert!(t.best_move() == moves[best]);
    assert_eq!(t.node(root).playouts, 2);
}

#[test]
fn expanded_weights_are_normalized() {
    let mut t = Tree::new(start_position(), 1 << 10, ValueKind::MaterialCount);
    for _ in 0..200 {
        t.playout();
    }
    let c = t.cache();
    for s in 0..c.len() as i32 {
        let n = c.node(s);
        if n.len() > 0 {
            let sum: u64 = (0..n.len()).map(|e| n.edge(e).policy).sum();
            assert!(sum <= ONE && sum + n.len() as u64 > ONE);
        }
        assert!(n.q() <= ONE);
    }
}

#[test]
fn small_cache_stays_consistent_under_eviction() {
    let mut t = Tree::new(start_position(), 2, ValueKind::MaterialCount);
    for _ in 0..100 {
        let leaf = t.playout();
        assert!((leaf as usize) < 2);
        assert_symmetric(t.cache());
    }
    assert_eq!(t.cache().len(), 2);
    assert!(t.nodes() > 2);
}

#[test]
fn forced_win_is_found() {
    // Black on A1, the only white piece on C1: moving next to it captures
    // it and wins.
    let b = Board::new(1 << 0, 1 << 2, 0, 0, 0, 0);
    let mut t = Tree::new(b, 1 << 16, ValueKind::MaterialCount);
    for _ in 0..3000 {
        t.playout();
    }
    let m = t.best_move();
    let after = play(&b, m);
    assert_eq!(after.white, 0);
    assert!(t.node(t.root()).q() > 900_000);
}

#[test]
fn checkpoint_runs_to_a_multiple() {
    let mut t = Tree::new(start_position(), 1 << 12, ValueKind::MaterialCount);
    t.playout();
    let (depth, last) = t.run_until_checkpoint(0);
    assert!(last <= depth);
    assert_eq!(t.playouts(), 4096);
    assert!(t.nodes() <= 4096);
    assert!(depth >= 1);
    t.run_until_checkpoint(depth);
    assert_eq!(t.playouts(), 8192);
}

#[test]
fn finished_root_is_scored_by_the_result() {
    // A full board split 24 to 24 around one blocker is a draw.
    let block: u64 = 1 << 48;
    let black: u64 = (1 << 24) - 1;
    let white: u64 = mexx::board::UNIVERSE & !black & !block;
    let draw = Board::new(black, white, block, 0, 60, 0);
    let mut t = Tree::new(draw, 16, ValueKind::MaterialCount);
    let r = t.playout();
    t.playout();
    assert_eq!(t.node(r).q(), 500_000);
    assert_eq!(t.node(r).len(), 0);
    // Black holds 25 squares and white is to move: a loss for white.
    let black: u64 = (1 << 25) - 1;
    let white: u64 = mexx::board::UNIVERSE & !black;
    let lost = Board::new(black, white, 0, 1, 60, 0);
    let mut t = Tree::new(lost, 16, ValueKind::MaterialCount);
    let r = t.playout();
    assert_eq!(t.node(r).q(), 0);
}

#[test]
fn root_gains_one_playout_per_playout() {
    let mut t = Tree::new(start_position(), 1 << 16, ValueKind::MaterialCount);
    t.playout();
    let root = t.root();
    for i in 0..100u64 {
        t.playout();
        assert_eq!(t.node(root).playouts, i + 2);
    }
}

#[test]
fn push_evicts_the_least_recently_used() {
    let mut c = Cache::new(2);
    let a = c.push(Node::new(start_position(), NULL_PTR, NULL_PTR));
    c.link(NULL_PTR, NULL_PTR, a);
    let b = c.push(Node::new(start_position(), NULL_PTR, NULL_PTR));
    assert_eq!((a, b), (0, 1));
    c.promote(a);
    assert_eq!(c.next_slot(), 1);
    assert_eq!(c.push(Node::new(start_position(), NULL_PTR, NULL_PTR)), 1);
    // Slot 0 is now the least recently used: the next push reuses it and
    // resets the root edge that pointed to it.
    assert_eq!(c.next_slot(), 0);
    assert_eq!(c.push(Node::new(start_position(), NULL_PTR, NULL_PTR)), 0);
    assert_eq!(c.edge(NULL_PTR, 0).ptr, NULL_PTR);
}
