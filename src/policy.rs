//! Move priors: the handcrafted contact heuristic, and the normalization
//! of raw priors into edge weights that add up to 1.
use vstd::prelude::*;
use crate::bits::{cardinality, popcount};
use crate::board::{Board, move_source, move_target, single_neighbours, single_of, source_of, target_of};
use crate::node::ONE;

verus! {

/// The largest prior the heuristic gives, in tenths: every square of a
/// neighbourhood counted at the highest rate, plus the bonus.
pub const MAX_PRIOR: u64 = 1000;

/// The heuristic prior of a move, in tenths: each opponent piece next to
/// the target counts 1, each own piece there 0.4; a single-square move gets
/// 0.7, a jump loses 0.4 for each own piece next to its source. The floor
/// is 0.1.
pub open spec fn spec_handcrafted(board: Board, m: ataxx::Move) -> int {
    let src = source_of(m);
    let tgt = target_of(m);
    let near_target = single_of(tgt);
    let near_source = single_of(src);
    let score = 10 * popcount(board.enemies() & near_target) + 4 * popcount(
        board.friends() & near_target,
    ) + if src == tgt {
        7int
    } else {
        -4 * popcount(board.friends() & near_source)
    };
    if score < 1 {
        1
    } else {
        score
    }
}

/// Scores a move from a board with the contact heuristic, in tenths.
pub fn handcrafted(board: &Board, mov: ataxx::Move) -> (r: u64)
    ensures
        r == spec_handcrafted(*board, mov),
        1 <= r <= MAX_PRIOR,
{
    let src = move_source(mov);
    let tgt = move_target(mov);
    let near_target = single_neighbours(tgt);
    let near_source = single_neighbours(src);
    let friends = board.own_pieces();
    let enemies = board.their_pieces();
    let hit_enemies = cardinality(enemies & near_target) as i64;
    let hit_friends = cardinality(friends & near_target) as i64;
    let mut score: i64 = 10 * hit_enemies + 4 * hit_friends;
    if src == tgt {
        score = score + 7;
    } else {
        score = score - 4 * cardinality(friends & near_source) as i64;
    }
    if score < 1 {
        1
    } else {
        score as u64
    }
}

/// The sum of a list of priors.
pub open spec fn prior_sum(p: Seq<u64>) -> nat
    decreases p.len(),
{
    if p.len() == 0 {
        0
    } else {
        prior_sum(p.drop_last()) + p.last() as nat
    }
}

/// The sum of a list of weights.
pub open spec fn weight_sum(w: Seq<u64>) -> nat
    decreases w.len(),
{
    if w.len() == 0 {
        0
    } else {
        weight_sum(w.drop_last()) + w.last() as nat
    }
}

/// Scales priors into weights: each prior's share of their sum, in
/// millionths, rounded down.
pub fn normalize(priors: &Vec<u64>) -> (r: Vec<u64>)
    requires
        priors@.len() <= 256,
        forall|i: int| 0 <= i < priors@.len() ==> 1 <= #[trigger] priors@[i] <= MAX_PRIOR,
    ensures
        r@.len() == priors@.len(),
        forall|i: int|
            0 <= i < r@.len() ==> #[trigger] r@[i] == priors@[i] * ONE / (prior_sum(priors@) as int),
        priors@.len() > 0 ==> weight_sum(r@) <= ONE,
        priors@.len() > 0 ==> weight_sum(r@) + priors@.len() > ONE,
{
    let n = priors.len();
    let mut sum: u64 = 0;
    let mut i: usize = 0;
    while i < n
        invariant
            n == priors@.len(),
            n <= 256,
            forall|j: int| 0 <= j < n ==> 1 <= #[trigger] priors@[j] <= MAX_PRIOR,
            i <= n,
            sum == prior_sum(priors@.subrange(0, i as int)),
            sum <= MAX_PRIOR * i,
            sum >= i,
        decreases n - i,
    {
        proof {
            assert(priors@.subrange(0, i + 1).drop_last() =~= priors@.subrange(0, i as int));
        }
        sum = sum + priors[i];
        i = i + 1;
    }
    proof {
        assert(priors@.subrange(0, n as int) =~= priors@);
    }
    let mut out: Vec<u64> = Vec::with_capacity(n);
    let mut i: usize = 0;
    while i < n
        invariant
            n == priors@.len(),
            n <= 256,
            forall|j: int| 0 <= j < n ==> 1 <= #[trigger] priors@[j] <= MAX_PRIOR,
            sum == prior_sum(priors@),
            i <= n,
            out@.len() == i,
            forall|j: int| 0 <= j < i ==> #[trigger] out@[j] == priors@[j] * ONE / (prior_sum(priors@) as int),
        decreases n - i,
    {
        assert(priors[i as int] * ONE <= MAX_PRIOR * ONE) by (nonlinear_arith)
            requires
                priors[i as int] <= MAX_PRIOR,
        ;
        out.push(priors[i] * ONE / sum);
        i = i + 1;
    }
    proof {
        if n > 0 {
            lemma_rounding(priors@, out@, sum as int, n as int);
            assert(priors@.subrange(0, n as int) =~= priors@);
            assert(out@.subrange(0, n as int) =~= out@);
            let f = weight_sum(out@) as int;
            let s = sum as int;
            assert(f <= ONE && f + n > ONE) by (nonlinear_arith)
                requires
                    s * f <= ONE * s,
                    s * f + n * (s - 1) >= ONE * s,
                    s >= 1,
                    n >= 1,
            ;
        }
    }
    out
}

/// No single weight of a normalized edge list exceeds 1.
pub proof fn lemma_weight_bound(edges: Seq<crate::node::Edge>, e: int)
    requires
        crate::node::policy_normalized(edges),
        0 <= e < edges.len(),
    ensures
        edges[e].policy <= ONE,
{
    lemma_weight_below_sum(edges, e);
}

proof fn lemma_weight_below_sum(edges: Seq<crate::node::Edge>, e: int)
    requires
        0 <= e < edges.len(),
    ensures
        edges[e].policy <= crate::node::policy_sum(edges),
    decreases edges.len(),
{
    if e < edges.len() - 1 {
        lemma_weight_below_sum(edges.drop_last(), e);
    }
}

/// Rounding each share down loses less than one unit per share.
proof fn lemma_rounding(p: Seq<u64>, w: Seq<u64>, s: int, k: int)
    requires
        p.len() == w.len(),
        s >= 1,
        0 <= k <= p.len(),
        forall|i: int| 0 <= i < w.len() ==> #[trigger] w[i] == p[i] * ONE / s,
    ensures
        s * weight_sum(w.subrange(0, k)) <= ONE * prior_sum(p.subrange(0, k)),
        s * weight_sum(w.subrange(0, k)) + k * (s - 1) >= ONE * prior_sum(p.subrange(0, k)),
    decreases k,
{
    if k > 0 {
        lemma_rounding(p, w, s, k - 1);
        assert(w.subrange(0, k).drop_last() =~= w.subrange(0, k - 1));
        assert(p.subrange(0, k).drop_last() =~= p.subrange(0, k - 1));
        let a = p[k - 1] * ONE;
        let q = w[k - 1] as int;
        assert(q == a / s);
        assert(s * q <= a && s * q + (s - 1) >= a) by (nonlinear_arith)
            requires
                q == a / s,
                s >= 1,
                a >= 0,
        ;
        let fw = weight_sum(w.subrange(0, k - 1)) as int;
        let fp = prior_sum(p.subrange(0, k - 1)) as int;
        assert(s * (fw + q) == s * fw + s * q) by (nonlinear_arith);
        assert(ONE * (fp + p[k - 1]) == ONE * fp + a) by (nonlinear_arith)
            requires
                a == p[k - 1] * ONE,
        ;
        assert(k * (s - 1) == (k - 1) * (s - 1) + (s - 1)) by (nonlinear_arith);
        assert(weight_sum(w.subrange(0, k)) == fw + q);
        assert(prior_sum(p.subrange(0, k)) == fp + p[k - 1]);
        assert(s * weight_sum(w.subrange(0, k)) == s * fw + s * q);
        assert(ONE * prior_sum(p.subrange(0, k)) == ONE * fp + a);
        assert(s * fw <= ONE * fp);
        assert(s * q <= a);
        assert(s * weight_sum(w.subrange(0, k)) <= ONE * prior_sum(p.subrange(0, k)));
    } else {
        assert(w.subrange(0, 0).len() == 0);
        assert(p.subrange(0, 0).len() == 0);
        assert(weight_sum(w.subrange(0, 0)) == 0);
        assert(prior_sum(p.subrange(0, 0)) == 0);
        assert(s * 0 == 0);
    }
}

} // verus!
