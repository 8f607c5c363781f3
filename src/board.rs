use vstd::prelude::*;
use crate::bits::popcount;

verus! {

pub const BLACK: u8 = 0;
pub const WHITE: u8 = 1;

/// The 49 squares of the 7x7 board.
pub const UNIVERSE: u64 = 0x1_ffff_ffff_ffff;

#[verifier::external_type_specification]
#[verifier::external_body]
pub struct ExMove(ataxx::Move);

/// A snapshot of an Ataxx game: one bitboard per piece kind, the side to
/// move, the ply count and the half-move clock.
#[derive(Clone, Copy, Debug, PartialEq, Eq, Structural)]
pub struct Board {
    pub black: u64,
    pub white: u64,
    pub block: u64,
    pub side_to_move: u8,
    pub ply_count: u16,
    pub half_move_clock: u8,
}

/// What the move generator lists for a board.
pub uninterp spec fn moves_of(b: Board) -> Seq<ataxx::Move>;

/// The number of legal moves the move generator counts for a board.
pub uninterp spec fn move_count_of(b: Board) -> usize;

/// The board that follows a move.
pub uninterp spec fn board_after(b: Board, m: ataxx::Move) -> Board;

/// The square a move starts from.
pub uninterp spec fn source_of(m: ataxx::Move) -> u8;

/// The square a move lands on.
pub uninterp spec fn target_of(m: ataxx::Move) -> u8;

/// The squares adjacent to a square, the square itself left out.
pub uninterp spec fn single_of(sq: u8) -> u64;

/// Squares `a` and `b` (row-major, seven per row) are king-move neighbours.
pub open spec fn adjacent(a: int, b: int) -> bool {
    &&& 0 <= a < 49
    &&& 0 <= b < 49
    &&& a != b
    &&& -1 <= a / 7 - b / 7 <= 1
    &&& -1 <= a % 7 - b % 7 <= 1
}

/// The winner of a finished game as a piece number: black, white, or 3 for
/// a draw. The fifty-move rule draws; a side without pieces loses; on a
/// full board the side with more pieces wins, and equal counts draw.
pub open spec fn spec_winner(b: Board) -> u8 {
    if b.half_move_clock >= 100 {
        3
    } else if b.black == 0 {
        WHITE
    } else if b.white == 0 {
        BLACK
    } else if popcount(b.black) > popcount(b.white) {
        BLACK
    } else if popcount(b.black) < popcount(b.white) {
        WHITE
    } else {
        3
    }
}

/// A full board split evenly between the two sides, which the fifty-move
/// rule has not already ended.
pub open spec fn even_split(b: Board) -> bool {
    b.half_move_clock < 100 && b.black != 0 && b.white != 0 && popcount(b.black) == popcount(
        b.white,
    )
}

impl Board {
    /// A side to move, and pieces on the 49 squares only.
    pub open spec fn wf(&self) -> bool {
        &&& self.side_to_move <= 1
        &&& self.black <= UNIVERSE
        &&& self.white <= UNIVERSE
        &&& self.block <= UNIVERSE
    }

    pub open spec fn friends(&self) -> u64 {
        if self.side_to_move == BLACK {
            self.black
        } else {
            self.white
        }
    }

    pub open spec fn enemies(&self) -> u64 {
        if self.side_to_move == BLACK {
            self.white
        } else {
            self.black
        }
    }

    /// The game has ended: the half-move clock reached 100, the board is
    /// full, or one side has no pieces left.
    pub open spec fn game_over(&self) -> bool {
        self.half_move_clock >= 100 || self.white | self.black | self.block == UNIVERSE
            || self.white == 0 || self.black == 0
    }

    pub fn new(
        black: u64,
        white: u64,
        block: u64,
        side_to_move: u8,
        ply_count: u16,
        half_move_clock: u8,
    ) -> (r: Board)
        ensures
            r == (Board { black, white, block, side_to_move, ply_count, half_move_clock }),
    {
        Board { black, white, block, side_to_move, ply_count, half_move_clock }
    }

    /// The pieces of the side to move.
    pub fn own_pieces(&self) -> (r: u64)
        ensures
            r == self.friends(),
    {
        if self.side_to_move == BLACK {
            self.black
        } else {
            self.white
        }
    }

    /// The pieces of the opponent of the side to move.
    pub fn their_pieces(&self) -> (r: u64)
        ensures
            r == self.enemies(),
    {
        if self.side_to_move == BLACK {
            self.white
        } else {
            self.black
        }
    }

    /// Whether the game has ended.
    pub fn is_game_over(&self) -> (r: bool)
        requires
            self.wf(),
        ensures
            r == self.game_over(),
    {
        outside_game_over(self)
    }
}

/// Relies on ataxx::Position::new and ataxx::Position::is_game_over: the
/// fifty-move rule, a full board, or a side without pieces.
#[verifier::external_body]
fn outside_game_over(b: &Board) -> (r: bool)
    requires
        b.wf(),
    ensures
        r == b.game_over(),
{
    let black = ataxx::BitBoard(b.black);
    let white = ataxx::BitBoard(b.white);
    let block = ataxx::BitBoard(b.block);
    let stm = ataxx::Piece::unsafe_from(b.side_to_move);
    ataxx::Position::new(black, white, block, stm, b.ply_count, b.half_move_clock).is_game_over()
}

/// Relies on ataxx::Position::new and ataxx::Position::count_moves: no move
/// once the game is over, otherwise at least one (a pass when nothing else
/// is legal). It fills no list, so it has no bound on the count.
#[verifier::external_body]
pub fn move_count(b: &Board) -> (r: usize)
    requires
        b.wf(),
    ensures
        r == move_count_of(*b),
        b.game_over() ==> r == 0,
        !b.game_over() ==> r >= 1,
{
    let black = ataxx::BitBoard(b.black);
    let white = ataxx::BitBoard(b.white);
    let block = ataxx::BitBoard(b.block);
    let stm = ataxx::Piece::unsafe_from(b.side_to_move);
    ataxx::Position::new(black, white, block, stm, b.ply_count, b.half_move_clock).count_moves()
}

/// Relies on ataxx::Position::new and ataxx::Position::generate_moves: the
/// moves that count_moves counts, one list entry per move. Its list holds
/// 256 moves, so boards with more are left out.
#[verifier::external_body]
pub fn legal_moves(b: &Board) -> (r: Vec<ataxx::Move>)
    requires
        b.wf(),
        move_count_of(*b) <= 256,
    ensures
        r@ == moves_of(*b),
        r@.len() == move_count_of(*b),
{
    let black = ataxx::BitBoard(b.black);
    let white = ataxx::BitBoard(b.white);
    let block = ataxx::BitBoard(b.block);
    let stm = ataxx::Piece::unsafe_from(b.side_to_move);
    let p = ataxx::Position::new(black, white, block, stm, b.ply_count, b.half_move_clock);
    p.generate_moves().into_iter().collect()
}

/// Relies on ataxx::Position::new and ataxx::Position::after_move: the other
/// side moves next, the ply count grows by one, the blockers stay, and the
/// pieces stay on the 49 squares (a move's squares are squares of the board).
#[verifier::external_body]
pub fn play(b: &Board, m: ataxx::Move) -> (r: Board)
    requires
        b.wf(),
        b.ply_count < u16::MAX,
        b.half_move_clock < u8::MAX,
    ensures
        r == board_after(*b, m),
        r.side_to_move == 1 - b.side_to_move,
        r.ply_count == b.ply_count + 1,
        r.block == b.block,
        r.black <= UNIVERSE,
        r.white <= UNIVERSE,
{
    let stm = ataxx::Piece::unsafe_from(b.side_to_move);
    let (black, white) = (ataxx::BitBoard(b.black), ataxx::BitBoard(b.white));
    let p = ataxx::Position::new(black, white, ataxx::BitBoard(b.block), stm, b.ply_count, b.half_move_clock)
        .after_move::<false>(m);
    let [black, white, block] = p.bitboards;
    Board {
        black: black.0,
        white: white.0,
        block: block.0,
        side_to_move: u8::from(p.side_to_move),
        ply_count: p.ply_count,
        half_move_clock: p.half_move_clock,
    }
}

/// Relies on ataxx::Position::new and ataxx::Position::winner, for a finished game that is not an
/// even split (it has no answer there).
#[verifier::external_body]
pub fn winner(b: &Board) -> (r: u8)
    requires
        b.wf(),
        b.game_over(),
        !even_split(*b),
    ensures
        r == spec_winner(*b),
{
    let black = ataxx::BitBoard(b.black);
    let white = ataxx::BitBoard(b.white);
    let block = ataxx::BitBoard(b.block);
    let stm = ataxx::Piece::unsafe_from(b.side_to_move);
    u8::from(ataxx::Position::new(black, white, block, stm, b.ply_count, b.half_move_clock).winner())
}

/// Relies on ataxx::Move::NULL, the move that stands for none.
#[verifier::external_body]
pub fn null_move() -> (r: ataxx::Move) {
    ataxx::Move::NULL
}

/// Relies on ataxx::Move::source: a square of the board.
#[verifier::external_body]
pub fn move_source(m: ataxx::Move) -> (r: u8)
    ensures
        r == source_of(m),
        r < 49,
{
    m.source() as u8
}

/// Relies on ataxx::Move::target: a square of the board.
#[verifier::external_body]
pub fn move_target(m: ataxx::Move) -> (r: u8)
    ensures
        r == target_of(m),
        r < 49,
{
    m.target() as u8
}

/// Relies on ataxx::BitBoard::single: the targets of a single-square move
/// from a square, that is its king-move neighbours.
#[verifier::external_body]
pub fn single_neighbours(sq: u8) -> (r: u64)
    requires
        sq < 49,
    ensures
        r == single_of(sq),
        forall|k: u64| k < 64 ==> (crate::bits::bit_set(r, k) <==> adjacent(sq as int, k as int)),
{
    ataxx::BitBoard::single(ataxx::Square::unsafe_from(sq)).0
}

} // verus!
