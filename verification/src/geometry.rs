//! Squares, coordinates and lines of a square board whose squares are
//! numbered row by row, and when one piece checks a king.

use vstd::prelude::*;
use vstd::wrapping::u32_specs::{wrapping_add, wrapping_mul, wrapping_sub};

use crate::piece::Piece;

verus! {

/// Column of a square.
pub open spec fn col_of(row_size: u32, p: u32) -> u32
    recommends
        row_size > 0,
{
    p % row_size
}

/// Row of a square.
pub open spec fn row_of(row_size: u32, p: u32) -> u32
    recommends
        row_size > 0,
{
    p / row_size
}

/// Distance between two coordinates.
pub open spec fn dist(a: u32, b: u32) -> u32 {
    if a >= b {
        (a - b) as u32
    } else {
        (b - a) as u32
    }
}

/// Whether a piece on `piece_pos` checks a king on `king_pos`: it never does
/// from the king's own square; a pawn checks one row below the king and one
/// column aside, a castle along the king's row or column, a bishop along its
/// diagonals, a queen along both, a knight by a knight's jump and a king from
/// a neighbouring square. Nothing on the board blocks a line.
pub open spec fn checks(row_size: u32, king_pos: u32, piece_pos: u32, piece: Piece) -> bool {
    let kx = col_of(row_size, king_pos);
    let ky = row_of(row_size, king_pos);
    let px = col_of(row_size, piece_pos);
    let py = row_of(row_size, piece_pos);
    let dx = dist(kx, px) as int;
    let dy = dist(ky, py) as int;
    if dx == 0 && dy == 0 {
        false
    } else {
        match piece {
            Piece::PAWN => py + 1 == ky && dx == 1,
            Piece::CASTLE => dx == 0 || dy == 0,
            Piece::QUEEN => dx == 0 || dy == 0 || dx == dy,
            Piece::BISHOP => dx == dy,
            Piece::KNIGHT => dx * dy == 2,
            Piece::KING => dx <= 1 && dy <= 1,
        }
    }
}

/// A knight's two distances never overflow a 32-bit product: one is below
/// the row size and the other at most `u32::MAX` divided by it.
pub proof fn lemma_dist_product(row_size: u32, king_pos: u32, piece_pos: u32)
    requires
        row_size > 0,
    ensures
        dist(col_of(row_size, king_pos), col_of(row_size, piece_pos)) * dist(
            row_of(row_size, king_pos),
            row_of(row_size, piece_pos),
        ) <= u32::MAX,
{
    let dx = dist(col_of(row_size, king_pos), col_of(row_size, piece_pos));
    let dy = dist(row_of(row_size, king_pos), row_of(row_size, piece_pos));
    let q = u32::MAX / row_size;
    assert(king_pos / row_size <= q) by (nonlinear_arith)
        requires
            row_size > 0,
            q == u32::MAX / row_size,
            king_pos <= u32::MAX,
    ;
    assert(piece_pos / row_size <= q) by (nonlinear_arith)
        requires
            row_size > 0,
            q == u32::MAX / row_size,
            piece_pos <= u32::MAX,
    ;
    assert(dy <= q);
    assert(dx < row_size);
    assert(dx * dy <= u32::MAX) by (nonlinear_arith)
        requires
            dx < row_size,
            dy <= q,
            q == u32::MAX / row_size,
            row_size > 0,
            0 <= dx,
            0 <= dy,
    ;
}

/// Column and row of a square.
pub fn pos_to_xy(row_size: u32, p: u32) -> (r: (u32, u32))
    requires
        row_size > 0,
    ensures
        r == (col_of(row_size, p), row_of(row_size, p)),
{
    (p % row_size, p / row_size)
}

/// The square at a column and row, computed modulo 2^32.
pub fn xy_to_pos(row_size: u32, x: u32, y: u32) -> (r: u32)
    ensures
        r == wrapping_add(wrapping_mul(y, row_size), x),
        x < row_size && y < row_size && row_size <= 65535 ==> r == y * row_size + x,
{
    proof {
        if x < row_size && y < row_size && row_size <= 65535 {
            assert(y * row_size <= 65534 * 65535) by (nonlinear_arith)
                requires
                    y < row_size,
                    row_size <= 65535,
            ;
            assert(0 <= y * row_size) by (nonlinear_arith);
        }
    }
    y.wrapping_mul(row_size).wrapping_add(x)
}

/// Whether a column and row lie on the board.
pub fn in_bounds(row_size: u32, x: u32, y: u32) -> (r: bool)
    ensures
        r == (x < row_size && y < row_size),
{
    x < row_size && y < row_size
}

/// Distance between two coordinates.
pub fn abs_diff(a: u32, b: u32) -> (r: u32)
    ensures
        r == dist(a, b),
{
    if a >= b {
        a - b
    } else {
        b - a
    }
}

/// Whether a piece on `piece_pos` checks a king on `king_pos`.
pub fn is_checking(row_size: u32, king_pos: u32, piece_pos: u32, piece: Piece) -> (r: bool)
    requires
        row_size > 0,
    ensures
        r == checks(row_size, king_pos, piece_pos, piece),
{
    let (king_x, king_y) = pos_to_xy(row_size, king_pos);
    let (piece_x, piece_y) = pos_to_xy(row_size, piece_pos);

    let dx = abs_diff(king_x, piece_x);
    let dy = abs_diff(king_y, piece_y);
    proof {
        lemma_dist_product(row_size, king_pos, piece_pos);
    }

    if dx == 0 && dy == 0 {
        return false;
    }
    match piece {
        Piece::PAWN => piece_y != u32::MAX && piece_y + 1 == king_y && dx == 1,
        Piece::CASTLE => dx == 0 || dy == 0,
        Piece::QUEEN => dx == 0 || dy == 0 || dx == dy,
        Piece::BISHOP => dx == dy,
        Piece::KNIGHT => dx * dy == 2,
        Piece::KING => dx <= 1 && dy <= 1,
    }
}

/// The diagonal of a column and row: their sum, modulo 2^32.
pub fn get_diagonal(x: u32, y: u32) -> (r: u32)
    ensures
        r == wrapping_add(x, y),
        x + y <= u32::MAX ==> r == x + y,
{
    x.wrapping_add(y)
}

/// The anti-diagonal of a column and row: the column plus `row_size - 1`
/// minus the row, computed modulo 2^32, or `2 * row_size` when the row is
/// past that sum.
pub fn get_anti_diagonal(x: u32, y: u32, row_size: u32) -> (r: u32)
    requires
        y <= wrapping_sub(wrapping_add(x, row_size), 1) || row_size * 2 <= u32::MAX,
    ensures
        r == if y <= wrapping_sub(wrapping_add(x, row_size), 1) {
            wrapping_sub(wrapping_sub(wrapping_add(x, row_size), 1), y)
        } else {
            (row_size * 2) as u32
        },
        x < row_size && y < row_size && row_size <= 65535 ==> r == x + row_size - 1 - y,
{
    if y <= x.wrapping_add(row_size).wrapping_sub(1) {
        x.wrapping_add(row_size).wrapping_sub(1).wrapping_sub(y)
    } else {
        row_size * 2
    }
}

/// The row at which column `x` meets anti-diagonal `anti_diag`, if it lies
/// on the board.
pub fn get_y_on_anti_diagonal(x: u32, anti_diag: u32, row_size: u32) -> (r: Option<u32>)
    ensures
        r == if anti_diag <= wrapping_sub(wrapping_add(x, row_size), 1) && wrapping_sub(
            wrapping_sub(wrapping_add(x, row_size), 1),
            anti_diag,
        ) < row_size {
            Some(wrapping_sub(wrapping_sub(wrapping_add(x, row_size), 1), anti_diag))
        } else {
            None
        },
        x < row_size <= 65535 ==> r == if anti_diag <= x + row_size - 1 && x + row_size - 1
            - anti_diag < row_size {
            Some((x + row_size - 1 - anti_diag) as u32)
        } else {
            None::<u32>
        },
{
    if anti_diag <= x.wrapping_add(row_size).wrapping_sub(1) {
        let y = x.wrapping_add(row_size).wrapping_sub(1).wrapping_sub(anti_diag);
        if y < row_size {
            return Some(y);
        }
    }
    None
}

} // verus!
