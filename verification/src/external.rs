//! Trusted items: the calls into `libbucharesthashing` and the one std
//! function that vstd gives no specification.

use vstd::prelude::*;

use crate::piece::{piece_of_id, Piece};
use libbucharesthashing::prover::Piece as Outside;

verus! {

/// Number of squares on the board, `libbucharesthashing::immutables::BOARD_SIZE`.
pub open spec fn spec_board_size() -> u32 {
    0x1FFFF
}

/// Number of draws a search may make, `libbucharesthashing::immutables::MAX_TRIES`.
pub open spec fn spec_max_tries() -> u32 {
    10_000
}

/// Number of pieces that must check the king, `libbucharesthashing::immutables::CHECKS_NEEDED`.
pub open spec fn spec_checks_needed() -> u32 {
    2
}

/// Reads `libbucharesthashing::immutables::BOARD_SIZE`; the crate's source
/// declares it as `0x1FFFF`.
#[verifier::external_body]
pub(crate) fn board_size() -> (r: u32)
    ensures
        r == spec_board_size(),
{
    libbucharesthashing::immutables::BOARD_SIZE
}

/// Reads `libbucharesthashing::immutables::MAX_TRIES`; the crate's source
/// declares it as `10_000`.
#[verifier::external_body]
pub(crate) fn max_tries() -> (r: u32)
    ensures
        r == spec_max_tries(),
{
    libbucharesthashing::immutables::MAX_TRIES
}

/// Reads `libbucharesthashing::immutables::CHECKS_NEEDED`; the crate's source
/// declares it as `2`.
#[verifier::external_body]
pub(crate) fn checks_needed() -> (r: u32)
    ensures
        r == spec_checks_needed(),
{
    libbucharesthashing::immutables::CHECKS_NEEDED
}

/// What `libbucharesthashing::prover::hash` returns: SipHash-1-3 of the bytes,
/// keyed by the big-endian bytes of the nonce. Its value depends on the two
/// arguments alone.
pub uninterp spec fn spec_hash(x: Seq<u8>, i: u32) -> u64;

/// Calls `libbucharesthashing::prover::hash`. The contract claims only that the
/// result is a function of the bytes and the nonce; nothing is said of its value.
#[verifier::external_body]
pub(crate) fn hash(x: &[u8], i: u32) -> (r: u64)
    ensures
        r == spec_hash(x@, i),
{
    libbucharesthashing::prover::hash(x, i)
}

/// Calls `From<Piece> for u8` of `libbucharesthashing::prover::Piece` on
/// `Piece::KING`. The source converts a piece to its `repr(u8)` discriminant;
/// `KING` is the sixth variant, so the result is 5.
#[verifier::external_body]
pub(crate) fn king_id() -> (r: u8)
    ensures
        r == 5,
{
    Outside::KING.into()
}

/// Calls `TryFrom<u8> for libbucharesthashing::prover::Piece` and names the
/// variant it gives back by the library's own `Piece`. The source maps
/// 0..=5 to PAWN, KNIGHT, BISHOP, CASTLE, QUEEN, KING and refuses every
/// other byte; the contract states that mapping.
#[verifier::external_body]
pub(crate) fn piece_from_id(id: u8) -> (r: Option<Piece>)
    ensures
        r == piece_of_id(id as int),
{
    match Outside::try_from(id) {
        Ok(Outside::PAWN) => Some(Piece::PAWN),
        Ok(Outside::KNIGHT) => Some(Piece::KNIGHT),
        Ok(Outside::BISHOP) => Some(Piece::BISHOP),
        Ok(Outside::CASTLE) => Some(Piece::CASTLE),
        Ok(Outside::QUEEN) => Some(Piece::QUEEN),
        Ok(Outside::KING) => Some(Piece::KING),
        Err(()) => None,
    }
}

/// Calls `u32::isqrt`, which std documents as the square root rounded down.
#[verifier::external_body]
pub(crate) fn isqrt(n: u32) -> (r: u32)
    ensures
        r * r <= n < (r + 1) * (r + 1),
{
    n.isqrt()
}

} // verus!
