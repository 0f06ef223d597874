//! The six kinds of piece and how a hash value is read as a draw: a piece
//! and the square it lands on.

use vstd::prelude::*;

use crate::external::{king_id, piece_from_id};

verus! {

/// A chess piece, in the order of its id.
#[allow(non_camel_case_types)]
#[derive(Clone, Copy, Debug, PartialEq, Eq, Structural)]
pub enum Piece {
    PAWN,
    KNIGHT,
    BISHOP,
    CASTLE,
    QUEEN,
    KING,
}

/// The piece that carries a given id, if any.
pub open spec fn piece_of_id(id: int) -> Option<Piece> {
    if id == 0 {
        Some(Piece::PAWN)
    } else if id == 1 {
        Some(Piece::KNIGHT)
    } else if id == 2 {
        Some(Piece::BISHOP)
    } else if id == 3 {
        Some(Piece::CASTLE)
    } else if id == 4 {
        Some(Piece::QUEEN)
    } else if id == 5 {
        Some(Piece::KING)
    } else {
        None
    }
}

/// The piece that a hash value draws: its value modulo the number of kinds.
pub open spec fn spec_draw_piece(e: u64) -> Piece {
    piece_of_id((e % 6) as int).unwrap()
}

/// The square that a hash value draws: its upper half modulo the board size.
pub open spec fn spec_draw_pos(e: u64, board_size: u32) -> u32 {
    (((e as int) / 0x1_0000_0000) % (board_size as int)) as u32
}

/// Reads a hash value as a piece and the square it lands on.
pub fn draw(e: u64, board_size: u32) -> (r: (Piece, u32))
    requires
        board_size > 0,
    ensures
        r.0 == spec_draw_piece(e),
        r.1 == spec_draw_pos(e, board_size),
        r.1 < board_size,
{
    let king: u8 = king_id();
    let p_id: u8 = (e % (king as u64 + 1)) as u8;
    let p = match piece_from_id(p_id) {
        Some(p) => p,
        None => Piece::KING,
    };
    assert(e >> 32 == e / 0x1_0000_0000) by (bit_vector);
    assert(e >> 32 <= 0xFFFF_FFFF) by (bit_vector);
    let offset: u32 = (e >> 32) as u32;
    let pos: u32 = offset % board_size;
    (p, pos)
}

} // verus!
