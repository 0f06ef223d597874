//! What a search over the draws computes, for the searches that keep the
//! pieces in the order they were drawn: the board, the last king on it, the
//! pieces that check that king, and the answer once enough of them do.

use vstd::prelude::*;

use crate::external::spec_hash;
use crate::geometry::{checks, row_of};
use crate::piece::{spec_draw_piece, spec_draw_pos, Piece};

verus! {

/// A piece on the board: the nonce that drew it, the piece, and its square.
pub type Entry = (u32, Piece, u32);

/// The floor of the square root of `n`.
pub open spec fn is_floor_sqrt(r: u32, n: u32) -> bool {
    r * r <= n < (r + 1) * (r + 1)
}

/// The length of a row of a board with `n` squares.
pub open spec fn floor_sqrt(n: u32) -> u32 {
    choose|r: u32| is_floor_sqrt(r, n)
}

/// There is one floor square root, and it is what `floor_sqrt` names; on a
/// board with squares it is at least one and at most 65535.
pub proof fn lemma_floor_sqrt(r: u32, n: u32)
    requires
        is_floor_sqrt(r, n),
    ensures
        floor_sqrt(n) == r,
        n > 0 ==> 0 < r,
        r <= 65535,
{
    let s = floor_sqrt(n);
    assert(is_floor_sqrt(s, n));
    if s < r {
        assert((s + 1) * (s + 1) <= r * r) by (nonlinear_arith)
            requires
                s < r,
                0 <= s,
        ;
    }
    if r < s {
        assert((r + 1) * (r + 1) <= s * s) by (nonlinear_arith)
            requires
                r < s,
                0 <= r,
        ;
    }
    if r == 0 {
        assert((0 + 1) * (0 + 1) == 1int) by (nonlinear_arith);
    }
    if r >= 65536 {
        assert(r * r >= 65536 * 65536) by (nonlinear_arith)
            requires
                r >= 65536,
        ;
    }
}

/// The rules of a search: the board's size, how many checks end it, and
/// how many nonces it may draw.
#[derive(Clone, Copy, Debug, PartialEq, Eq, Structural)]
pub struct Params {
    pub board_size: u32,
    pub checks_needed: u32,
    pub max_tries: u32,
}

impl Params {
    /// Length of a row of the board.
    pub open spec fn row_size(self) -> u32 {
        floor_sqrt(self.board_size)
    }

    /// The board has at least one square.
    pub open spec fn valid(self) -> bool {
        self.board_size > 0
    }
}

/// The piece that nonce `i` draws from hash value `e`.
pub open spec fn entry_of(i: u32, e: u64, board_size: u32) -> Entry {
    (i, spec_draw_piece(e), spec_draw_pos(e, board_size))
}

/// Whether a square lies inside the square part of the board.
pub open spec fn on_board(row_size: u32, pos: u32) -> bool {
    row_of(row_size, pos) < row_size
}

/// Whether a search keeps a drawn piece: all of them, or, for a search that
/// keeps to the square part of the board, those that land there.
pub open spec fn kept(row_size: u32, pos: u32, bounded: bool) -> bool {
    !bounded || on_board(row_size, pos)
}

/// The squares that pieces on `board` occupy and that check a king on
/// `king_pos`, each with the nonce of the last piece placed there.
pub open spec fn threat_fold(board: Seq<Entry>, row_size: u32, king_pos: u32) -> Map<u32, u32>
    decreases board.len(),
{
    if board.len() == 0 {
        Map::empty()
    } else {
        let m = threat_fold(board.drop_last(), row_size, king_pos);
        let e = board.last();
        if checks(row_size, king_pos, e.2, e.1) {
            m.insert(e.2, e.0)
        } else {
            m.remove(e.2)
        }
    }
}

/// The square and nonce of the last king placed on `board`.
pub open spec fn last_king(board: Seq<Entry>) -> Option<(u32, u32)>
    decreases board.len(),
{
    if board.len() == 0 {
        None
    } else if board.last().1 == Piece::KING {
        Some((board.last().2, board.last().0))
    } else {
        last_king(board.drop_last())
    }
}

/// The pieces that check the last king, by square; none without a king.
pub open spec fn threats_of(board: Seq<Entry>, row_size: u32) -> Map<u32, u32> {
    match last_king(board) {
        Some((king_pos, _)) => threat_fold(board, row_size, king_pos),
        None => Map::empty(),
    }
}

/// Whether `board` holds a king checked by at least `checks_needed` pieces.
pub open spec fn found(board: Seq<Entry>, row_size: u32, checks_needed: u32) -> bool {
    &&& last_king(board) is Some
    &&& threats_of(board, row_size).len() >= checks_needed
}

/// `r` is the least of a king's nonce and the nonces of the pieces in `m`.
pub open spec fn is_least(r: u32, m: Map<u32, u32>, king_nonce: u32) -> bool {
    &&& r == king_nonce || exists|q: u32| m.contains_key(q) && m[q] == r
    &&& r <= king_nonce
    &&& forall|q: u32| m.contains_key(q) ==> r <= #[trigger] m[q]
}

/// The least of a king's nonce and the nonces of the pieces in `m`.
pub open spec fn least(m: Map<u32, u32>, king_nonce: u32) -> u32 {
    choose|r: u32| is_least(r, m, king_nonce)
}

/// The answer of a board that `found` accepts: the least nonce among the
/// king and the pieces that check it.
pub open spec fn answer(board: Seq<Entry>, row_size: u32) -> u32 {
    least(threats_of(board, row_size), last_king(board).unwrap().1)
}

/// The board after nonce `i` draws hash value `e`.
pub open spec fn step_board(board: Seq<Entry>, i: u32, e: u64, params: Params, bounded: bool) -> Seq<
    Entry,
> {
    let entry = entry_of(i, e, params.board_size);
    if kept(params.row_size(), entry.2, bounded) {
        board.push(entry)
    } else {
        board
    }
}

/// What the search answers after nonce `i` has drawn hash value `e` onto
/// `board`, which gives `step_board(board, i, e, ..)`: nothing for a piece
/// it does not keep, and otherwise the answer and `i` once enough pieces
/// check the last king.
pub open spec fn step_result(board: Seq<Entry>, i: u32, e: u64, params: Params, bounded: bool) -> Option<
    (u32, u32),
> {
    let next = step_board(board, i, e, params, bounded);
    if !kept(params.row_size(), entry_of(i, e, params.board_size).2, bounded) {
        None
    } else if found(next, params.row_size(), params.checks_needed) {
        Some((answer(next, params.row_size()), i))
    } else {
        None
    }
}

/// The board that a search from `start` has built once it has drawn every
/// nonce below `end`.
pub open spec fn board_upto(h: Seq<u8>, start: u32, end: int, params: Params, bounded: bool) -> Seq<
    Entry,
>
    decreases end - start,
{
    if end <= start {
        Seq::empty()
    } else {
        let i = (end - 1) as u32;
        step_board(board_upto(h, start, end - 1, params, bounded), i, spec_hash(h, i), params, bounded)
    }
}

/// What a search from `start`, which reached nonce `i` without an answer,
/// returns: the first answer of a nonce from `i` up to the last try.
pub open spec fn search_from(h: Seq<u8>, start: u32, i: int, params: Params, bounded: bool) -> Option<
    (u32, u32),
>
    decreases params.max_tries - i,
{
    if i >= params.max_tries || i < start {
        None
    } else {
        let r = step_result(
            board_upto(h, start, i, params, bounded),
            i as u32,
            spec_hash(h, i as u32),
            params,
            bounded,
        );
        if r is Some {
            r
        } else {
            search_from(h, start, i + 1, params, bounded)
        }
    }
}

/// What a search over the hashes of `h`, from nonce `start`, returns.
pub open spec fn spec_search(h: Seq<u8>, start: u32, params: Params, bounded: bool) -> Option<
    (u32, u32),
> {
    search_from(h, start, start as int, params, bounded)
}

/// The map of checking pieces has finitely many squares.
pub proof fn lemma_threat_fold_finite(board: Seq<Entry>, row_size: u32, king_pos: u32)
    ensures
        threat_fold(board, row_size, king_pos).dom().finite(),
    decreases board.len(),
{
    if board.len() > 0 {
        lemma_threat_fold_finite(board.drop_last(), row_size, king_pos);
    }
}

/// The threats of a board have finitely many squares.
pub proof fn lemma_threats_finite(board: Seq<Entry>, row_size: u32)
    ensures
        threats_of(board, row_size).dom().finite(),
{
    if let Some((k, _)) = last_king(board) {
        lemma_threat_fold_finite(board, row_size, k);
    }
}

/// A finite map of nonces has a least one together with the king's.
pub proof fn lemma_least_exists(m: Map<u32, u32>, king_nonce: u32)
    requires
        m.dom().finite(),
    ensures
        is_least(least(m, king_nonce), m, king_nonce),
    decreases m.dom().len(),
{
    if m.dom().len() == 0 {
        assert(m.dom() =~= Set::empty());
        assert(is_least(king_nonce, m, king_nonce));
    } else {
        let q0 = m.dom().choose();
        let m2 = m.remove(q0);
        assert(m2.dom() =~= m.dom().remove(q0));
        lemma_least_exists(m2, king_nonce);
        let r2 = least(m2, king_nonce);
        if m[q0] < r2 {
            assert(is_least(m[q0], m, king_nonce)) by {
                assert forall|q: u32| m.contains_key(q) implies m[q0] <= #[trigger] m[q] by {
                    if q != q0 {
                        assert(m2.contains_key(q));
                        assert(m2[q] == m[q]);
                    }
                }
            }
        } else {
            assert(is_least(r2, m, king_nonce)) by {
                if r2 != king_nonce {
                    let w = choose|q: u32| m2.contains_key(q) && m2[q] == r2;
                    assert(m.contains_key(w) && m[w] == r2);
                }
                assert forall|q: u32| m.contains_key(q) implies r2 <= #[trigger] m[q] by {
                    if q != q0 {
                        assert(m2.contains_key(q));
                        assert(m2[q] == m[q]);
                    }
                }
            }
        }
    }
}

/// Any least nonce is the one that `least` names.
pub proof fn lemma_least_unique(r: u32, m: Map<u32, u32>, king_nonce: u32)
    requires
        m.dom().finite(),
        is_least(r, m, king_nonce),
    ensures
        least(m, king_nonce) == r,
{
    lemma_least_exists(m, king_nonce);
    let s = least(m, king_nonce);
    if s != king_nonce {
        let w = choose|q: u32| m.contains_key(q) && m[q] == s;
        assert(r <= m[w]);
    }
    if r != king_nonce {
        let w = choose|q: u32| m.contains_key(q) && m[q] == r;
        assert(s <= m[w]);
    }
}

/// The nonces of a board grow from each piece to the next.
pub open spec fn increasing(board: Seq<Entry>) -> bool {
    forall|j: int, k: int| 0 <= j < k < board.len() ==> board[j].0 < board[k].0
}

/// No two pieces of a board carry the same nonce.
pub open spec fn distinct_nonces(board: Seq<Entry>) -> bool {
    forall|j: int, k: int| 0 <= j < k < board.len() ==> board[j].0 != board[k].0
}

/// Growing nonces are distinct.
pub proof fn lemma_increasing_distinct(board: Seq<Entry>)
    requires
        increasing(board),
    ensures
        distinct_nonces(board),
{
}

/// Each piece that a board's map of checking pieces lists was placed on its
/// square with its nonce.
pub proof fn lemma_threat_fold_source(board: Seq<Entry>, row_size: u32, king_pos: u32)
    ensures
        forall|q: u32|
            #[trigger] threat_fold(board, row_size, king_pos).contains_key(q) ==> exists|j: int|
                0 <= j < board.len() && board[j].2 == q && board[j].0 == threat_fold(
                    board,
                    row_size,
                    king_pos,
                )[q],
    decreases board.len(),
{
    if board.len() > 0 {
        let prev = board.drop_last();
        lemma_threat_fold_source(prev, row_size, king_pos);
        let m = threat_fold(board, row_size, king_pos);
        let mp = threat_fold(prev, row_size, king_pos);
        assert forall|q: u32| #[trigger] m.contains_key(q) implies exists|j: int|
            0 <= j < board.len() && board[j].2 == q && board[j].0 == m[q] by {
            if q == board.last().2 {
                assert(board[board.len() - 1].2 == q);
            } else {
                assert(mp.contains_key(q));
                let j = choose|j: int| 0 <= j < prev.len() && prev[j].2 == q && prev[j].0 == mp[q];
                assert(board[j] == prev[j]);
            }
        }
    }
}

/// On a board with distinct nonces, no two squares of the map of checking
/// pieces carry the same nonce.
pub proof fn lemma_threat_fold_injective(board: Seq<Entry>, row_size: u32, king_pos: u32)
    requires
        distinct_nonces(board),
    ensures
        forall|q1: u32, q2: u32|
            #[trigger] threat_fold(board, row_size, king_pos).contains_key(q1)
                && #[trigger] threat_fold(board, row_size, king_pos).contains_key(q2)
                && threat_fold(board, row_size, king_pos)[q1] == threat_fold(
                board,
                row_size,
                king_pos,
            )[q2] ==> q1 == q2,
{
    lemma_threat_fold_source(board, row_size, king_pos);
    let m = threat_fold(board, row_size, king_pos);
    assert forall|q1: u32, q2: u32|
        #[trigger] m.contains_key(q1) && #[trigger] m.contains_key(q2) && m[q1] == m[q2] implies q1
        == q2 by {
        let j1 = choose|j: int| 0 <= j < board.len() && board[j].2 == q1 && board[j].0 == m[q1];
        let j2 = choose|j: int| 0 <= j < board.len() && board[j].2 == q2 && board[j].0 == m[q2];
        if j1 < j2 {
            assert(board[j1].0 != board[j2].0);
        } else if j2 < j1 {
            assert(board[j2].0 != board[j1].0);
        }
    }
}

/// A search from `start` places pieces in the order of their nonces, all of
/// them at least `start` and below `end`.
pub proof fn lemma_board_upto_nonces(h: Seq<u8>, start: u32, end: int, params: Params, bounded: bool)
    requires
        end <= u32::MAX + 1,
    ensures
        increasing(board_upto(h, start, end, params, bounded)),
        forall|j: int|
            0 <= j < board_upto(h, start, end, params, bounded).len() ==> start <= #[trigger] board_upto(
                h,
                start,
                end,
                params,
                bounded,
            )[j].0 < end,
    decreases end - start,
{
    if end > start {
        lemma_board_upto_nonces(h, start, end - 1, params, bounded);
        let prev = board_upto(h, start, end - 1, params, bounded);
        let b = board_upto(h, start, end, params, bounded);
        let i = (end - 1) as u32;
        let entry = entry_of(i, spec_hash(h, i), params.board_size);
        if kept(params.row_size(), entry.2, bounded) {
            assert(b == prev.push(entry));
            assert forall|j: int, k: int| 0 <= j < k < b.len() implies b[j].0 < b[k].0 by {
                if k == b.len() - 1 {
                    assert(b[j] == prev[j]);
                } else {
                    assert(b[j] == prev[j] && b[k] == prev[k]);
                }
            }
            assert forall|j: int| 0 <= j < b.len() implies start <= #[trigger] b[j].0 < end by {
                if j < prev.len() {
                    assert(b[j] == prev[j]);
                }
            }
        } else {
            assert(b == prev);
        }
    }
}

} // verus!
