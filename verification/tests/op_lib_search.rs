use bucharest_solver::op_lib::{solve, Search, Storage};
use bucharest_solver::read_params;

/// A hash value that draws the piece with id `piece_id` on square `pos`.
fn enc(piece_id: u64, pos: u64) -> u64 {
    let hi = pos << 32;
    hi + (piece_id + 6 - hi % 6) % 6
}

const PAWN: u64 = 0;
const KNIGHT: u64 = 1;
const BISHOP: u64 = 2;
const CASTLE: u64 = 3;
const QUEEN: u64 = 4;
const KING: u64 = 5;
const ROW: u64 = 362;

#[test]
fn op_answers_once_two_pieces_check_the_king() {
    let mut s = Search::new(read_params());
    assert_eq!(s.step(10, enc(KING, 0)), None);
    assert_eq!(s.step(11, enc(BISHOP, ROW + 1)), None);
    assert_eq!(s.step(12, enc(KNIGHT, 2 * ROW + 1)), Some((10, 12)));
}

#[test]
fn op_a_piece_off_the_square_part_counts() {
    let mut s = Search::new(read_params());
    assert_eq!(s.step(1, enc(KING, 6)), None);
    // (6, 362) lies below the last full row, in the king's column
    assert_eq!(s.step(2, enc(CASTLE, ROW * ROW + 6)), None);
    assert_eq!(s.step(3, enc(CASTLE, 6 + ROW)), Some((1, 3)));
}

#[test]
fn op_a_piece_replaced_by_one_that_does_not_check_no_longer_counts() {
    let mut s = Search::new(read_params());
    assert_eq!(s.step(20, enc(KING, 0)), None);
    assert_eq!(s.step(21, enc(CASTLE, 5)), None);
    assert_eq!(s.step(22, enc(PAWN, 5)), None);
    assert_eq!(s.step(23, enc(CASTLE, ROW)), None);
    assert_eq!(s.step(24, enc(QUEEN, 9)), Some((20, 24)));
}

#[test]
fn op_a_new_king_is_checked_by_the_pieces_on_the_board() {
    let mut s = Search::new(read_params());
    assert_eq!(s.step(1, enc(KING, 0)), None);
    assert_eq!(s.step(2, enc(CASTLE, 5 * ROW + 5)), None);
    assert_eq!(s.step(3, enc(CASTLE, 5 * ROW + 5)), None);
    assert_eq!(s.step(4, enc(BISHOP, 7 * ROW + 7)), None);
    // the castle on (5, 5) counts once, with its latest nonce
    assert_eq!(s.step(5, enc(KING, 9 * ROW + 5)), Some((3, 5)));
}

#[test]
fn op_solve_restarts_at_its_answer() {
    for seed in 0u8..6 {
        let h = [seed; 32];
        if let Some((l, hi)) = solve(&h, 0) {
            assert!(l <= hi);
            assert_eq!(solve(&h, l), Some((l, hi)));
        }
    }
}

#[test]
fn op_prove_maps_the_answer() {
    let h = [9u8; 32];
    match solve(&h, 0) {
        Some(r) => assert_eq!(Storage {}.prove(h, 0), Ok(r)),
        None => assert_eq!(Storage {}.prove(h, 0), Err(vec![])),
    }
    assert_eq!(Storage {}.prove(h, 10_000), Err(vec![]));
}

#[test]
fn op_solve_past_the_tries_finds_nothing() {
    assert_eq!(solve(&[1u8; 32], 10_000), None);
}

#[test]
fn op_solve_restarts_below_its_answer() {
    for seed in 0u8..4 {
        let h = [seed; 32];
        if let Some((l, hi)) = solve(&h, 0) {
            for s in [0, l / 3, l / 2, l.saturating_sub(1), l] {
                assert_eq!(solve(&h, s), Some((l, hi)));
            }
        }
    }
}
