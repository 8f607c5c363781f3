//! The value network: a quantized two-layer network from sparse features to
//! a score, and the fixed-point logistic that turns a score into a win
//! probability.
use vstd::prelude::*;
use crate::bits::{cardinality, popcount};
use crate::board::Board;
use crate::features::{FEATURES, TUPLES, tuple_feature, value_feature_map};
use crate::node::ONE;

verus! {

pub const SCALE: i64 = 400;
pub const QA: i64 = 255;
pub const QB: i64 = 64;
pub const QAB: i64 = QA * QB;

/// The largest hidden width the output sum is sized for.
pub const MAX_HIDDEN: usize = 4096;

/// The clipped and squared activation.
pub open spec fn spec_screlu(x: i16) -> int {
    let c: int = if x < 0 {
        0
    } else if x > 255 {
        255
    } else {
        x as int
    };
    c * c
}

/// Clips to `[0, QA]`, then squares.
pub fn screlu(x: i16) -> (r: i32)
    ensures
        r == spec_screlu(x),
        0 <= r <= 65025,
{
    let c: i32 = if x < 0 {
        0
    } else if x > 255 {
        255
    } else {
        x as i32
    };
    assert(c * c <= 65025) by (nonlinear_arith)
        requires
            0 <= c <= 255,
    ;
    c * c
}

/// Integer division that rounds toward zero.
pub open spec fn div_trunc(a: int, b: int) -> int {
    if a >= 0 {
        a / b
    } else {
        -((-a) / b)
    }
}

/// A network with `INPUT` sparse inputs and `HIDDEN` hidden units. Row `f`
/// of the first layer is `l1_weights[f * HIDDEN .. (f + 1) * HIDDEN]`.
pub struct ValueNetwork<const INPUT: usize, const HIDDEN: usize> {
    pub l1_weights: Vec<i16>,
    pub l1_bias: Vec<i16>,
    pub l2_weights: Vec<i16>,
    pub l2_bias: i16,
}

impl<const INPUT: usize, const HIDDEN: usize> ValueNetwork<INPUT, HIDDEN> {
    pub open spec fn wf(&self) -> bool {
        &&& FEATURES <= INPUT
        &&& 1 <= HIDDEN <= MAX_HIDDEN
        &&& self.l1_weights@.len() == INPUT * HIDDEN
        &&& self.l1_bias@.len() == HIDDEN
        &&& self.l2_weights@.len() == HIDDEN
    }

    /// Hidden unit `h` after the first `k` features were added to the bias,
    /// with the wrapping arithmetic of `i16`.
    pub open spec fn acc(&self, feats: Seq<usize>, k: nat, h: int) -> i16
        decreases k,
    {
        if k == 0 {
            self.l1_bias@[h]
        } else {
            self.acc(feats, (k - 1) as nat, h).wrapping_add(
                self.l1_weights@[feats[k - 1] * HIDDEN + h],
            )
        }
    }

    /// The weighted sum of the first `n` activated hidden units.
    pub open spec fn out_sum(&self, feats: Seq<usize>, n: nat) -> int
        decreases n,
    {
        if n == 0 {
            0
        } else {
            self.out_sum(feats, (n - 1) as nat) + spec_screlu(self.acc(feats, feats.len(), n - 1))
                * self.l2_weights@[n - 1]
        }
    }

    /// The score of a list of active features.
    pub open spec fn score(&self, feats: Seq<usize>) -> int {
        div_trunc(
            (div_trunc(self.out_sum(feats, HIDDEN as nat), QA as int) + self.l2_bias) * SCALE,
            QAB as int,
        )
    }

    /// The score of a board, from the side to move.
    pub open spec fn board_score(&self, board: Board) -> int {
        self.score(Seq::new(TUPLES as nat, |t: int| tuple_feature(board.friends(), board.enemies(), t) as usize))
    }

    /// Scores a board for the side to move, in centipawn-like units.
    pub fn eval(&self, board: &Board) -> (r: i32)
        requires
            self.wf(),
        ensures
            r == self.board_score(*board),
    {
        let feats = value_feature_map(board.own_pieces(), board.their_pieces());
        proof {
            assert(feats@ =~= Seq::new(TUPLES as nat, |t: int| tuple_feature(board.friends(), board.enemies(), t) as usize));
        }
        let mut acc: Vec<i16> = Vec::with_capacity(HIDDEN);
        let mut h: usize = 0;
        while h < HIDDEN
            invariant
                self.wf(),
                h <= HIDDEN,
                acc@.len() == h,
                forall|j: int| 0 <= j < h ==> #[trigger] acc@[j] == self.acc(feats@, 0, j),
            decreases HIDDEN - h,
        {
            acc.push(self.l1_bias[h]);
            h = h + 1;
        }
        let mut k: usize = 0;
        while k < TUPLES
            invariant
                self.wf(),
                feats@.len() == TUPLES,
                forall|t: int| 0 <= t < TUPLES ==> #[trigger] feats@[t] < FEATURES,
                k <= TUPLES,
                acc@.len() == HIDDEN,
                forall|j: int| 0 <= j < HIDDEN ==> #[trigger] acc@[j] == self.acc(feats@, k as nat, j),
            decreases TUPLES - k,
        {
            let feat = feats[k];
            let mut j: usize = 0;
            while j < HIDDEN
                invariant
                    self.wf(),
                    feat < FEATURES,
                    feat == feats@[k as int],
                    k < TUPLES,
                    feats@.len() == TUPLES,
                    j <= HIDDEN,
                    acc@.len() == HIDDEN,
                    forall|x: int| 0 <= x < j ==> #[trigger] acc@[x] == self.acc(feats@, (k + 1) as nat, x),
                    forall|x: int| j <= x < HIDDEN ==> #[trigger] acc@[x] == self.acc(feats@, k as nat, x),
                decreases HIDDEN - j,
            {
                let len = self.l1_weights.len();
                assert(feat * HIDDEN + j < len) by (nonlinear_arith)
                    requires
                        feat < FEATURES,
                        FEATURES <= INPUT,
                        j < HIDDEN,
                        len == INPUT * HIDDEN,
                ;
                let w = self.l1_weights[feat * HIDDEN + j];
                let v = acc[j].wrapping_add(w);
                acc.set(j, v);
                j = j + 1;
            }
            k = k + 1;
        }
        let mut sum: i64 = 0;
        let mut h: usize = 0;
        while h < HIDDEN
            invariant
                self.wf(),
                h <= HIDDEN,
                acc@.len() == HIDDEN,
                feats@.len() == TUPLES,
                forall|j: int| 0 <= j < HIDDEN ==> #[trigger] acc@[j] == self.acc(feats@, TUPLES as nat, j),
                sum == self.out_sum(feats@, h as nat),
                -2130739200 * h <= sum <= 2130739200 * h,
            decreases HIDDEN - h,
        {
            let a = screlu(acc[h]);
            let w = self.l2_weights[h] as i64;
            assert(-2130739200 <= (a as i64) * w <= 2130739200) by (nonlinear_arith)
                requires
                    0 <= a <= 65025,
                    -32768 <= w <= 32767,
            ;
            assert(-2130739200 * (h + 1) <= sum + (a as i64) * w <= 2130739200 * (h + 1)) by (nonlinear_arith)
                requires
                    -2130739200 * h <= sum <= 2130739200 * h,
                    -2130739200 <= (a as i64) * w <= 2130739200,
            ;
            sum = sum + (a as i64) * w;
            h = h + 1;
        }
        assert(-8727507763200 <= sum <= 8727507763200) by (nonlinear_arith)
            requires
                -2130739200 * h <= sum <= 2130739200 * h,
                h <= 4096,
        ;
        let hidden = if sum >= 0 {
            sum / QA
        } else {
            -((-sum) / QA)
        };
        assert(-34225520640 <= hidden <= 34225520640) by (nonlinear_arith)
            requires
                -8727507763200 <= sum <= 8727507763200,
                sum >= 0 ==> hidden == sum / 255,
                sum < 0 ==> hidden == -((-sum) / 255),
        ;
        let scaled: i64 = (hidden + self.l2_bias as i64) * SCALE;
        let r = if scaled >= 0 {
            scaled / QAB
        } else {
            -((-scaled) / QAB)
        };
        assert(-838861603 <= r <= 838861603) by (nonlinear_arith)
            requires
                -13690221363200 <= scaled <= 13690221363200,
                scaled >= 0 ==> r == scaled / 16320,
                scaled < 0 ==> r == -((-scaled) / 16320),
        ;
        r as i32
    }
}

/// The `i16` stored little-endian in two bytes.
pub open spec fn spec_i16_le(lo: u8, hi: u8) -> int {
    let v = hi * 256 + lo;
    if v >= 32768 {
        v - 65536
    } else {
        v
    }
}

fn i16_le(lo: u8, hi: u8) -> (r: i16)
    ensures
        r == spec_i16_le(lo, hi),
{
    let v: u32 = (hi as u32) * 256 + lo as u32;
    if v >= 32768 {
        (v as i32 - 65536) as i16
    } else {
        v as i16
    }
}

/// The `i16` values of a byte slice, two bytes each, little-endian.
pub open spec fn words(bytes: Seq<u8>, start: int, n: int) -> Seq<i16> {
    Seq::new(n as nat, |i: int| spec_i16_le(bytes[start + 2 * i], bytes[start + 2 * i + 1]) as i16)
}

fn read_words(bytes: &[u8], start: usize, n: usize) -> (r: Vec<i16>)
    requires
        start + 2 * n <= bytes@.len(),
    ensures
        r@ == words(bytes@, start as int, n as int),
{
    let mut out: Vec<i16> = Vec::with_capacity(n);
    let len = bytes.len();
    let mut i: usize = 0;
    while i < n
        invariant
            len == bytes@.len(),
            start + 2 * n <= len,
            i <= n,
            out@.len() == i,
            forall|j: int| 0 <= j < i ==> #[trigger] out@[j] == spec_i16_le(bytes@[start + 2 * j], bytes@[start + 2 * j + 1]) as i16,
        decreases n - i,
    {
        out.push(i16_le(bytes[start + 2 * i], bytes[start + 2 * i + 1]));
        i = i + 1;
    }
    proof {
        assert(out@ =~= words(bytes@, start as int, n as int));
    }
    out
}

impl<const INPUT: usize, const HIDDEN: usize> ValueNetwork<INPUT, HIDDEN> {
    /// The number of bytes the parameters take: first-layer weights, biases
    /// and output weights, two bytes each, then the output bias.
    pub open spec fn spec_byte_len() -> int {
        2 * (INPUT * HIDDEN + 2 * HIDDEN + 1)
    }

    /// Reads a network from the start of a weight blob. The blob must hold
    /// at least the parameters' bytes; anything after them is not read.
    pub fn from_bytes(bytes: &[u8]) -> (r: Option<Self>)
        requires
            FEATURES <= INPUT,
            1 <= HIDDEN <= MAX_HIDDEN,
            INPUT * HIDDEN <= 0x1000_0000,
        ensures
            r.is_some() <==> bytes@.len() >= Self::spec_byte_len(),
            r.is_some() ==> ({
                let net = r.unwrap();
                let ih = INPUT * HIDDEN;
                &&& net.wf()
                &&& net.l1_weights@ == words(bytes@, 0, ih)
                &&& net.l1_bias@ == words(bytes@, 2 * ih, HIDDEN as int)
                &&& net.l2_weights@ == words(bytes@, 2 * (ih + HIDDEN), HIDDEN as int)
                &&& net.l2_bias == spec_i16_le(bytes@[2 * (ih + 2 * HIDDEN)], bytes@[2 * (ih + 2 * HIDDEN) + 1])
            }),
    {
        let ih: usize = INPUT * HIDDEN;
        let need: usize = 2 * (ih + 2 * HIDDEN + 1);
        if bytes.len() < need {
            return None;
        }
        let l1_weights = read_words(bytes, 0, ih);
        let l1_bias = read_words(bytes, 2 * ih, HIDDEN);
        let l2_weights = read_words(bytes, 2 * (ih + HIDDEN), HIDDEN);
        let at = 2 * (ih + 2 * HIDDEN);
        let l2_bias = i16_le(bytes[at], bytes[at + 1]);
        Some(ValueNetwork { l1_weights, l1_bias, l2_weights, l2_bias })
    }
}

/// Knot `i` of the fixed-point logistic: `ONE / (1 + e^(-x / 400))` at
/// `x = 200 * i - 4000`, rounded.
pub open spec fn spec_knot(i: u64) -> int {
    match i {
        0 => 45,
        1 => 75,
        2 => 123,
        3 => 203,
        4 => 335,
        5 => 553,
        6 => 911,
        7 => 1501,
        8 => 2473,
        9 => 4070,
        10 => 6693,
        11 => 10987,
        12 => 17986,
        13 => 29312,
        14 => 47426,
        15 => 75858,
        16 => 119203,
        17 => 182426,
        18 => 268941,
        19 => 377541,
        20 => 500000,
        21 => 622459,
        22 => 731059,
        23 => 817574,
        24 => 880797,
        25 => 924142,
        26 => 952574,
        27 => 970688,
        28 => 982014,
        29 => 989013,
        30 => 993307,
        31 => 995930,
        32 => 997527,
        33 => 998499,
        34 => 999089,
        35 => 999447,
        36 => 999665,
        37 => 999797,
        38 => 999877,
        39 => 999925,
        _ => 999955,
    }
}

fn knot(i: u64) -> (r: u64)
    requires
        i <= 40,
    ensures
        r == spec_knot(i),
{
    match i {
        0 => 45,
        1 => 75,
        2 => 123,
        3 => 203,
        4 => 335,
        5 => 553,
        6 => 911,
        7 => 1501,
        8 => 2473,
        9 => 4070,
        10 => 6693,
        11 => 10987,
        12 => 17986,
        13 => 29312,
        14 => 47426,
        15 => 75858,
        16 => 119203,
        17 => 182426,
        18 => 268941,
        19 => 377541,
        20 => 500000,
        21 => 622459,
        22 => 731059,
        23 => 817574,
        24 => 880797,
        25 => 924142,
        26 => 952574,
        27 => 970688,
        28 => 982014,
        29 => 989013,
        30 => 993307,
        31 => 995930,
        32 => 997527,
        33 => 998499,
        34 => 999089,
        35 => 999447,
        36 => 999665,
        37 => 999797,
        38 => 999877,
        39 => 999925,
        _ => 999955,
    }
}

proof fn lemma_knots(i: u64)
    requires
        i < 40,
    ensures
        0 < spec_knot(i) <= spec_knot((i + 1) as u64) < ONE,
{
}

/// The win probability of a score, in millionths: the logistic curve with
/// scale 400, interpolated linearly between knots 200 apart and flat beyond
/// +-4000.
pub open spec fn spec_win_probability(cp: i32) -> int {
    if cp <= -4000 {
        spec_knot(0)
    } else if cp >= 4000 {
        spec_knot(40)
    } else {
        let x = cp + 4000;
        let i = x / 200;
        let lo = spec_knot(i as u64);
        let hi = spec_knot((i + 1) as u64);
        lo + (hi - lo) * (x % 200) / 200
    }
}

/// Turns a score into a win probability strictly between 0 and 1.
pub fn win_probability(cp: i32) -> (r: u64)
    ensures
        r == spec_win_probability(cp),
        0 < r < ONE,
{
    if cp <= -4000 {
        knot(0)
    } else if cp >= 4000 {
        knot(40)
    } else {
        let x = (cp + 4000) as u64;
        let i = x / 200;
        let lo = knot(i);
        let hi = knot(i + 1);
        proof {
            lemma_knots(i);
        }
        let rest = x % 200;
        assert((hi - lo) * rest / 200 <= hi - lo) by (nonlinear_arith)
            requires
                lo <= hi,
                rest < 200,
        ;
        lo + (hi - lo) * rest / 200
    }
}

/// A score wins more than half the time exactly when it is positive, and
/// half the time exactly when it is zero.
pub proof fn lemma_win_probability_sign(cp: i32)
    ensures
        spec_win_probability(cp) > ONE / 2 <==> cp > 0,
        spec_win_probability(cp) == ONE / 2 <==> cp == 0,
{
    if -4000 < cp < 4000 {
        let x = cp + 4000;
        let i = x / 200;
        let rest = x % 200;
        let lo = spec_knot(i as u64);
        let hi = spec_knot((i + 1) as u64);
        lemma_knots(i as u64);
        assert(0 <= (hi - lo) * rest / 200 <= hi - lo) by (nonlinear_arith)
            requires
                lo <= hi,
                0 <= rest < 200,
        ;
        if cp > 0 {
            if i == 20 {
                assert(rest >= 1);
                assert((hi - lo) * rest / 200 >= 612) by (nonlinear_arith)
                    requires
                        hi - lo == 122459,
                        rest >= 1,
                ;
            } else {
                assert(i > 20);
                assert(lo > 500000);
            }
        } else if cp < 0 {
            assert(i < 20);
            assert(hi <= 500000);
            assert(lo < hi);
            assert((hi - lo) * rest / 200 < hi - lo) by (nonlinear_arith)
                requires
                    lo < hi,
                    0 <= rest < 200,
            ;
        } else {
            assert(i == 20 && rest == 0);
            assert((hi - lo) * rest / 200 == 0) by (nonlinear_arith)
                requires
                    rest == 0,
            ;
        }
        assert(spec_win_probability(cp) == lo + (hi - lo) * rest / 200);
    } else if cp <= -4000 {
        assert(spec_win_probability(cp) == spec_knot(0));
        assert(spec_knot(0) == 45);
    } else {
        assert(spec_win_probability(cp) == spec_knot(40));
        assert(spec_knot(40) == 999955);
    }
}

/// Material ahead wins more than half the time, material behind less.
pub proof fn lemma_material_count_sign(board: Board)
    ensures
        spec_material_count(board) > ONE / 2 <==> popcount(board.friends()) > popcount(
            board.enemies(),
        ),
{
    crate::bits::lemma_popcount_bound(board.friends());
    crate::bits::lemma_popcount_bound(board.enemies());
    lemma_win_probability_sign((popcount(board.friends()) - popcount(board.enemies())) as i32);
}

/// The win probability from the material balance alone.
pub open spec fn spec_material_count(board: Board) -> int {
    spec_win_probability((popcount(board.friends()) - popcount(board.enemies())) as i32)
}

/// Scores a board by its material balance, in millionths of a win.
pub fn material_count(board: &Board) -> (r: u64)
    ensures
        r == spec_material_count(*board),
        0 < r < ONE,
{
    let own = cardinality(board.own_pieces());
    let theirs = cardinality(board.their_pieces());
    win_probability(own as i32 - theirs as i32)
}

/// Scores a board with a value network, in millionths of a win.
pub fn monty_network<const INPUT: usize, const HIDDEN: usize>(
    net: &ValueNetwork<INPUT, HIDDEN>,
    board: &Board,
) -> (r: u64)
    requires
        net.wf(),
    ensures
        r == spec_win_probability(net.board_score(*board) as i32),
        0 < r < ONE,
{
    win_probability(net.eval(board))
}

} // verus!
