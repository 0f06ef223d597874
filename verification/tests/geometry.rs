use bucharest_solver::geometry::{
    abs_diff, get_anti_diagonal, get_diagonal, get_y_on_anti_diagonal, in_bounds, is_checking,
    pos_to_xy, xy_to_pos,
};
use bucharest_solver::piece::{draw, Piece};
use bucharest_solver::read_params;

/// A hash value that draws the piece with id `piece_id` on square `pos`.
fn enc(piece_id: u64, pos: u64) -> u64 {
    let hi = pos << 32;
    hi + (piece_id + 6 - hi % 6) % 6
}

#[test]
fn params_are_the_games_constants() {
    let p = read_params();
    assert_eq!(p.board_size, 0x1FFFF);
    assert_eq!(p.checks_needed, 2);
    assert_eq!(p.max_tries, 10_000);
}

#[test]
fn draw_reads_piece_and_square() {
    assert_eq!(draw(0, 0x1FFFF), (Piece::PAWN, 0));
    assert_eq!(draw(5, 0x1FFFF), (Piece::KING, 0));
    assert_eq!(draw(6, 0x1FFFF), (Piece::PAWN, 0));
    assert_eq!(draw(3, 100), (Piece::CASTLE, 0));
    // upper half 7: 7 * 2^32 + 1 is 5 modulo 6
    assert_eq!(draw((7u64 << 32) + 1, 0x1FFFF), (Piece::KING, 7));
    assert_eq!(draw(enc(4, 500), 0x1FFFF), (Piece::QUEEN, 500));
    // the square is taken modulo the board size
    assert_eq!(draw(enc(1, 0x1FFFF + 3), 0x1FFFF), (Piece::KNIGHT, 3));
    assert_eq!(draw(u64::MAX, 10), (Piece::CASTLE, 5));
}

#[test]
fn coordinates_of_squares() {
    assert_eq!(pos_to_xy(362, 0), (0, 0));
    assert_eq!(pos_to_xy(362, 363), (1, 1));
    assert_eq!(pos_to_xy(362, 131070), (26, 362));
    assert_eq!(xy_to_pos(362, 1, 1), 363);
    assert_eq!(xy_to_pos(362, 26, 362), 131070);
    // wraps modulo 2^32
    assert_eq!(xy_to_pos(2, u32::MAX, 0), u32::MAX);
    assert_eq!(xy_to_pos(2, 1, u32::MAX), u32::MAX);
    assert!(in_bounds(362, 361, 361));
    assert!(!in_bounds(362, 362, 0));
    assert!(!in_bounds(362, 0, 362));
    assert_eq!(abs_diff(3, 10), 7);
    assert_eq!(abs_diff(10, 3), 7);
}

#[test]
fn diagonals() {
    assert_eq!(get_diagonal(3, 4), 7);
    assert_eq!(get_diagonal(u32::MAX, 2), 1);
    assert_eq!(get_anti_diagonal(3, 4, 8), 6);
    assert_eq!(get_anti_diagonal(0, 7, 8), 0);
    assert_eq!(get_anti_diagonal(7, 0, 8), 14);
    // a row past the sum answers twice the row size
    assert_eq!(get_anti_diagonal(0, 9, 8), 16);
    assert_eq!(get_y_on_anti_diagonal(3, 6, 8), Some(4));
    assert_eq!(get_y_on_anti_diagonal(0, 7, 8), Some(0));
    assert_eq!(get_y_on_anti_diagonal(0, 8, 8), None);
    assert_eq!(get_y_on_anti_diagonal(7, 0, 8), None);
    assert_eq!(get_y_on_anti_diagonal(7, 7, 8), Some(7));
}

#[test]
fn checks_by_piece() {
    let r = 8;
    let king = 3 * r + 3; // (3, 3)
    // a pawn checks from one row below, one column aside
    assert!(is_checking(r, king, 2 * r + 2, Piece::PAWN));
    assert!(is_checking(r, king, 2 * r + 4, Piece::PAWN));
    assert!(!is_checking(r, king, 4 * r + 2, Piece::PAWN));
    assert!(!is_checking(r, king, 2 * r + 3, Piece::PAWN));
    // castles along rows and columns, through anything
    assert!(is_checking(r, king, 3 * r + 7, Piece::CASTLE));
    assert!(is_checking(r, king, 0 * r + 3, Piece::CASTLE));
    assert!(!is_checking(r, king, 0 * r + 0, Piece::CASTLE));
    // bishops along diagonals
    assert!(is_checking(r, king, 0, Piece::BISHOP));
    assert!(is_checking(r, king, 6 * r + 0, Piece::BISHOP));
    assert!(!is_checking(r, king, 3 * r + 0, Piece::BISHOP));
    // queens both ways
    assert!(is_checking(r, king, 0, Piece::QUEEN));
    assert!(is_checking(r, king, 3 * r + 0, Piece::QUEEN));
    assert!(!is_checking(r, king, 1 * r + 0, Piece::QUEEN));
    // knights by a jump
    assert!(is_checking(r, king, 1 * r + 2, Piece::KNIGHT));
    assert!(is_checking(r, king, 4 * r + 5, Piece::KNIGHT));
    assert!(!is_checking(r, king, 5 * r + 5, Piece::KNIGHT));
    // kings from a neighbouring square
    assert!(is_checking(r, king, 2 * r + 2, Piece::KING));
    assert!(is_checking(r, king, 4 * r + 3, Piece::KING));
    assert!(!is_checking(r, king, 5 * r + 3, Piece::KING));
    // nothing checks from the king's own square
    for p in [Piece::PAWN, Piece::KNIGHT, Piece::BISHOP, Piece::CASTLE, Piece::QUEEN, Piece::KING] {
        assert!(!is_checking(r, king, king, p));
    }
}
