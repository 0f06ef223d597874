use bucharest_solver::read_params;
use bucharest_solver::tracker::{solve, Search, Storage};

/// A hash value that draws the piece with id `piece_id` on square `pos`.
fn enc(piece_id: u64, pos: u64) -> u64 {
    let hi = pos << 32;
    hi + (piece_id + 6 - hi % 6) % 6
}

const PAWN: u64 = 0;
const KNIGHT: u64 = 1;
const BISHOP: u64 = 2;
const CASTLE: u64 = 3;
const QUEEN: u64 = 4;
const KING: u64 = 5;
const ROW: u64 = 362;

#[test]
fn tracker_answers_once_two_pieces_check_the_king() {
    let mut s = Search::new(read_params());
    assert_eq!(s.step(10, enc(KING, 0)), None);
    assert_eq!(s.step(11, enc(BISHOP, ROW + 1)), None);
    assert_eq!(s.step(12, enc(KNIGHT, 2 * ROW + 1)), Some((10, 12)));
}

#[test]
fn tracker_counts_the_threats_on_the_board_when_a_king_lands() {
    let mut s = Search::new(read_params());
    assert_eq!(s.step(1, enc(CASTLE, 5 * ROW + 5)), None);
    assert_eq!(s.step(2, enc(BISHOP, 7 * ROW + 9)), None);
    assert_eq!(s.step(3, enc(PAWN, 8 * ROW + 4)), None);
    assert_eq!(s.step(4, enc(KING, 9 * ROW + 5)), Some((1, 4)));
}

#[test]
fn tracker_a_pawn_checks_from_below() {
    let mut s = Search::new(read_params());
    assert_eq!(s.step(1, enc(PAWN, 8 * ROW + 4)), None);
    assert_eq!(s.step(2, enc(PAWN, 8 * ROW + 6)), None);
    assert_eq!(s.step(3, enc(KING, 9 * ROW + 5)), Some((1, 3)));
}

#[test]
fn tracker_a_piece_off_the_square_part_is_not_found_when_a_king_lands() {
    let mut s = Search::new(read_params());
    // (6, 362) lies below the last full row, in the column of (6, 0)
    assert_eq!(s.step(1, enc(CASTLE, ROW * ROW + 6)), None);
    assert_eq!(s.step(2, enc(QUEEN, 6 + 5 * ROW)), None);
    assert_eq!(s.step(3, enc(KING, 6)), None);
    assert_eq!(s.step(4, enc(KNIGHT, ROW + 8)), Some((2, 4)));
}

#[test]
fn tracker_a_pawn_between_hides_no_castle() {
    let mut s = Search::new(read_params());
    assert_eq!(s.step(1, enc(CASTLE, 5)), None);
    // the pawn stands between the castle and the king's square
    assert_eq!(s.step(2, enc(PAWN, 2)), None);
    assert_eq!(s.step(3, enc(KING, 0)), None);
    assert_eq!(s.step(4, enc(KNIGHT, ROW + 2)), Some((1, 4)));
}

#[test]
fn tracker_a_replaced_threat_still_counts() {
    let mut s = Search::new(read_params());
    assert_eq!(s.step(20, enc(KING, 0)), None);
    assert_eq!(s.step(21, enc(CASTLE, 5)), None);
    assert_eq!(s.step(22, enc(PAWN, 5)), None);
    assert_eq!(s.step(23, enc(CASTLE, ROW)), Some((20, 23)));
}

#[test]
fn tracker_replays_the_draws_before_its_start() {
    let mut s = Search::new(read_params());
    s.place(0, enc(KING, 0));
    s.place(1, enc(CASTLE, 5));
    s.place(2, enc(PAWN, 5));
    s.place(3, enc(QUEEN, 4 * ROW + 4));
    s.begin();
    // only the queen checks the king on the replayed board
    assert_eq!(s.step(4, enc(KNIGHT, 2 * ROW + 1)), Some((0, 4)));
}

#[test]
fn tracker_begin_without_a_king_counts_nothing() {
    let mut s = Search::new(read_params());
    s.place(0, enc(CASTLE, 5));
    s.begin();
    assert_eq!(s.step(1, enc(CASTLE, ROW)), None);
    // the castle replayed before the start checks the king too
    assert_eq!(s.step(2, enc(KING, 0)), Some((0, 2)));
}

#[test]
fn tracker_solve_restarts_at_its_answer() {
    for seed in 0u8..6 {
        let h = [seed; 32];
        if let Some((l, hi)) = solve(&h, 0) {
            assert!(l <= hi);
            assert_eq!(solve(&h, l), Some((l, hi)));
        }
    }
}

#[test]
fn tracker_prove_maps_the_answer() {
    let h = [3u8; 32];
    match solve(&h, 0) {
        Some(r) => assert_eq!(Storage {}.prove(h, 0), Ok(r)),
        None => assert_eq!(Storage {}.prove(h, 0), Err(vec![])),
    }
}

#[test]
fn tracker_solve_past_the_tries_finds_nothing() {
    let h = [5u8; 32];
    // the draws below the start are replayed, but none is searched
    assert_eq!(solve(&h, 10_000), None);
    assert_eq!(Storage {}.prove(h, 10_000), Err(vec![]));
}
