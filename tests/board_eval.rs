use mexx::bits::{cardinality, isqrt};
use mexx::board::{legal_moves, move_source, move_target, play, single_neighbours, winner, Board};
use mexx::features::value_feature_map;
use mexx::node::ONE;
use mexx::policy::{handcrafted, normalize};
use mexx::value::{material_count, monty_network, screlu, win_probability, ValueNetwork};

const A1: u64 = 1 << 0;
const G1: u64 = 1 << 6;
const A7: u64 = 1 << 42;
const G7: u64 = 1 << 48;

fn start_position() -> Board {
    Board::new(G1 | A7, A1 | G7, 0, 0, 0, 0)
}

#[test]
fn popcount_counts_bits() {
    assert_eq!(cardinality(0), 0);
    assert_eq!(cardinality(0b1011), 3);
    assert_eq!(cardinality(u64::MAX), 64);
}

#[test]
fn integer_square_root() {
    assert_eq!(isqrt(0), 0);
    assert_eq!(isqrt(15), 3);
    assert_eq!(isqrt(16), 4);
    assert_eq!(isqrt(1_000_001), 1000);
}

#[test]
fn start_position_has_sixteen_moves() {
    let b = start_position();
    assert!(!b.is_game_over());
    assert_eq!(legal_moves(&b).len(), 16);
}

#[test]
fn finished_game_has_no_moves() {
    let b = Board::new(G1, 0, 0, 1, 10, 0);
    assert!(b.is_game_over());
    assert_eq!(legal_moves(&b).len(), 0);
    assert_eq!(winner(&b), 0);
}

#[test]
fn fifty_move_rule_ends_game() {
    let b = Board::new(G1, A1, 0, 0, 0, 100);
    assert!(b.is_game_over());
}

#[test]
fn playing_a_move_changes_the_board() {
    let b = start_position();
    let m = ataxx::Move::new_single(ataxx::Square::F1);
    let after = play(&b, m);
    assert_eq!(after.side_to_move, 1);
    assert_eq!(after.ply_count, 1);
    assert_eq!(after.black, G1 | A7 | (1 << 5));
    assert_eq!(after.white, A1 | G7);
}

#[test]
fn move_squares_and_neighbours() {
    let m = ataxx::Move::new(ataxx::Square::G1, ataxx::Square::E1);
    assert_eq!(move_source(m), 6);
    assert_eq!(move_target(m), 4);
    assert_eq!(single_neighbours(0), 0x182);
}

#[test]
fn handcrafted_rewards_contact_and_single_moves() {
    let b = start_position();
    let single = ataxx::Move::new_single(ataxx::Square::F1);
    assert_eq!(handcrafted(&b, single), 11);
    let jump = ataxx::Move::new(ataxx::Square::G1, ataxx::Square::E1);
    assert_eq!(handcrafted(&b, jump), 1);
}

#[test]
fn handcrafted_counts_captures() {
    // Black on A1, white on C1: B1 touches the white piece and the black one.
    let b = Board::new(1 << 0, 1 << 2, 0, 0, 0, 0);
    let m = ataxx::Move::new_single(ataxx::Square::B1);
    assert_eq!(handcrafted(&b, m), 10 + 4 + 7);
}

#[test]
fn normalized_weights_sum_to_one() {
    let w = normalize(&vec![1, 1, 1]);
    assert_eq!(w, vec![333_333, 333_333, 333_333]);
    let total: u64 = w.iter().sum();
    assert!(total <= ONE && total + 3 > ONE);
    let w = normalize(&vec![3, 1]);
    assert_eq!(w, vec![750_000, 250_000]);
    assert_eq!(normalize(&vec![]), Vec::<u64>::new());
}

#[test]
fn features_of_empty_board() {
    let f = value_feature_map(0, 0);
    assert_eq!(f.len(), 36);
    for (t, v) in f.iter().enumerate() {
        assert_eq!(*v, 81 * t);
    }
}

#[test]
fn features_read_base_three() {
    // Own piece on A1, opponent piece on B2: B2 is the fourth square of
    // tuple 0, the third of tuple 1, the second of tuple 6 and the first of
    // tuple 7.
    let f = value_feature_map(1 << 0, 1 << 8);
    assert_eq!(f[0], 1 + 27 * 2);
    assert_eq!(f[1], 81 + 9 * 2);
    assert_eq!(f[6], 81 * 6 + 3 * 2);
    assert_eq!(f[7], 81 * 7 + 2);
}

#[test]
fn screlu_clips_and_squares() {
    assert_eq!(screlu(-5), 0);
    assert_eq!(screlu(10), 100);
    assert_eq!(screlu(300), 65025);
}

#[test]
fn logistic_is_centred_and_bounded() {
    assert_eq!(win_probability(0), 500_000);
    assert_eq!(win_probability(100), 500_000 + (622_459 - 500_000) / 2);
    assert_eq!(win_probability(-100_000), 45);
    assert_eq!(win_probability(100_000), 999_955);
    assert!(win_probability(400) > 700_000);
}

#[test]
fn material_count_favours_more_pieces() {
    let even = start_position();
    assert_eq!(material_count(&even), 500_000);
    let ahead = Board::new(G1 | A7 | 1, G7, 0, 0, 0, 0);
    let p = material_count(&ahead);
    assert!(p > 500_000 && p < ONE);
}

fn tiny_network(l2: i16, l2_bias: i16) -> ValueNetwork<2916, 1> {
    ValueNetwork { l1_weights: vec![1; 2916], l1_bias: vec![0], l2_weights: vec![l2], l2_bias }
}

#[test]
fn network_scores_exactly() {
    let b = start_position();
    assert_eq!(tiny_network(64, 0).eval(&b), 7);
    assert_eq!(tiny_network(-64, 10).eval(&b), -7);
    let p = monty_network(&tiny_network(64, 0), &b);
    assert_eq!(p, win_probability(7));
}

#[test]
fn network_reads_little_endian_blob() {
    let mut bytes: Vec<u8> = Vec::new();
    for _ in 0..2916 {
        bytes.extend_from_slice(&1i16.to_le_bytes());
    }
    bytes.extend_from_slice(&0i16.to_le_bytes());
    bytes.extend_from_slice(&(-64i16).to_le_bytes());
    bytes.extend_from_slice(&10i16.to_le_bytes());
    let net = ValueNetwork::<2916, 1>::from_bytes(&bytes).unwrap();
    assert_eq!(net.l2_weights, vec![-64]);
    assert_eq!(net.l2_bias, 10);
    assert_eq!(net.eval(&start_position()), -7);
    assert!(ValueNetwork::<2916, 1>::from_bytes(&bytes[..bytes.len() - 1]).is_none());
}

#[test]
fn features_follow_the_side_to_move() {
    let black_to_move = Board::new(1 << 0, 1 << 8, 0, 0, 0, 0);
    let white_to_move = Board::new(1 << 8, 1 << 0, 0, 1, 0, 0);
    assert_eq!(mexx::features::get_features(&black_to_move), value_feature_map(1 << 0, 1 << 8));
    assert_eq!(mexx::features::get_features(&white_to_move), value_feature_map(1 << 0, 1 << 8));
}

#[test]
fn winner_by_piece_count_on_full_board() {
    // Black holds 25 squares, white 24: black wins.
    let black: u64 = (1 << 25) - 1;
    let white: u64 = mexx::board::UNIVERSE & !black;
    let b = Board::new(black, white, 0, 1, 60, 0);
    assert!(b.is_game_over());
    assert_eq!(winner(&b), 0);
    assert_eq!(legal_moves(&b).len(), 0);
}

#[test]
fn move_count_matches_the_list() {
    let b = start_position();
    assert_eq!(mexx::board::move_count(&b), 16);
    let over = Board::new(G1, 0, 0, 1, 10, 0);
    assert_eq!(mexx::board::move_count(&over), 0);
}

#[test]
fn logistic_sign_follows_the_score() {
    assert!(win_probability(1) > 500_000);
    assert!(win_probability(-1) < 500_000);
}
