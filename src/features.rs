//! Sparse input features: the board is covered by 36 overlapping 2x2
//! tuples of squares, and each tuple's occupancy pattern (empty, own piece,
//! opponent piece per square, read base 3) selects one feature.
use vstd::prelude::*;
use crate::bits::bit_set;
use crate::board::Board;

verus! {

/// The number of tuples, and so of active features per position.
pub const TUPLES: usize = 36;

/// The number of patterns per tuple: three states for each of four squares.
pub const PER_TUPLE: usize = 81;

/// The number of distinct features.
pub const FEATURES: usize = 2916;

/// The state of one square, from the side to move: 0 empty, 1 own piece,
/// 2 opponent piece.
pub open spec fn cell(friends: u64, enemies: u64, sq: u64) -> nat {
    if bit_set(friends, sq) {
        1
    } else if bit_set(enemies, sq) {
        2
    } else {
        0
    }
}

/// The feature of tuple `t`, whose corner is at row `t / 6`, column `t % 6`.
pub open spec fn tuple_feature(friends: u64, enemies: u64, t: int) -> nat {
    let off = (7 * (t / 6) + t % 6) as u64;
    (81 * t + cell(friends, enemies, off) + 3 * cell(friends, enemies, (off + 1) as u64) + 9 * cell(
        friends,
        enemies,
        (off + 7) as u64,
    ) + 27 * cell(friends, enemies, (off + 8) as u64)) as nat
}

fn cell_at(friends: u64, enemies: u64, sq: u64) -> (r: usize)
    requires
        sq < 64,
    ensures
        r == cell(friends, enemies, sq),
{
    if (friends >> sq) & 1 == 1 {
        1
    } else if (enemies >> sq) & 1 == 1 {
        2
    } else {
        0
    }
}

/// The active features of a position, one per tuple in tuple order.
pub fn value_feature_map(friends: u64, enemies: u64) -> (r: Vec<usize>)
    ensures
        r@.len() == TUPLES,
        forall|t: int| 0 <= t < TUPLES ==> #[trigger] r@[t] == tuple_feature(friends, enemies, t),
        forall|t: int| 0 <= t < TUPLES ==> 81 * t <= #[trigger] r@[t] < 81 * (t + 1),
        forall|t: int| 0 <= t < TUPLES ==> #[trigger] r@[t] < FEATURES,
{
    let mut feats: Vec<usize> = Vec::with_capacity(TUPLES);
    let mut i: usize = 0;
    while i < 6
        invariant
            i <= 6,
            feats@.len() == 6 * i,
            forall|t: int| 0 <= t < feats@.len() ==> #[trigger] feats@[t] == tuple_feature(friends, enemies, t),
            forall|t: int| 0 <= t < feats@.len() ==> 81 * t <= #[trigger] feats@[t] < 81 * (t + 1),
        decreases 6 - i,
    {
        let mut j: usize = 0;
        while j < 6
            invariant
                i < 6,
                j <= 6,
                feats@.len() == 6 * i + j,
                forall|t: int| 0 <= t < feats@.len() ==> #[trigger] feats@[t] == tuple_feature(friends, enemies, t),
                forall|t: int| 0 <= t < feats@.len() ==> 81 * t <= #[trigger] feats@[t] < 81 * (t + 1),
            decreases 6 - j,
        {
            let tuple: usize = 6 * i + j;
            let off: u64 = (7 * i + j) as u64;
            let feat: usize = PER_TUPLE * tuple + cell_at(friends, enemies, off) + 3 * cell_at(
                friends,
                enemies,
                off + 1,
            ) + 9 * cell_at(friends, enemies, off + 7) + 27 * cell_at(friends, enemies, off + 8);
            assert((tuple as int) / 6 == i && (tuple as int) % 6 == j);
            feats.push(feat);
            j = j + 1;
        }
        i = i + 1;
    }
    feats
}

/// The active features of a board, from its side to move.
pub fn get_features(board: &Board) -> (r: Vec<usize>)
    ensures
        r@.len() == TUPLES,
        forall|t: int|
            0 <= t < TUPLES ==> #[trigger] r@[t] == tuple_feature(board.friends(), board.enemies(), t),
{
    value_feature_map(board.own_pieces(), board.their_pieces())
}

} // verus!
