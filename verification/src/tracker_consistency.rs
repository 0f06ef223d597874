//! A search of the `tracker` kind from nonce 0 that answers `(l, hi)` answers
//! the same when it is started again at the nonce `l` it answered.

use vstd::prelude::*;

use crate::external::spec_hash;
use crate::geometry::checks;
use crate::model::Params;
use crate::piece::{spec_draw_piece, spec_draw_pos, Piece};
use crate::tracker_model::{
    attacker_nonces, attackers, cells_upto, is_least_of, king_upto, least_of, threats_upto, tracked_result, tracked_search_from, spec_tracked_search, Cells,
};

verus! {

/// A search that answers from nonce `i` answers at some nonce `k` from `i`
/// on, and at no nonce before `k`.
proof fn lemma_tracked_answer(h: Seq<u8>, s: u32, i: int, params: Params)
    requires
        tracked_search_from(h, s, i, params) is Some,
    ensures
        exists|k: int|
            s <= i <= k < params.max_tries && tracked_result(h, s, k, params) == tracked_search_from(
                h,
                s,
                i,
                params,
            ) && forall|j: int| i <= j < k ==> #[trigger] tracked_result(h, s, j, params) is None,
    decreases params.max_tries - i,
{
    if tracked_result(h, s, i, params) is None {
        lemma_tracked_answer(h, s, i + 1, params);
        let k = choose|k: int|
            s <= i + 1 <= k < params.max_tries && tracked_result(h, s, k, params)
                == tracked_search_from(h, s, i + 1, params) && forall|j: int|
                i + 1 <= j < k ==> #[trigger] tracked_result(h, s, j, params) is None;
        assert(forall|j: int| i <= j < k ==> #[trigger] tracked_result(h, s, j, params) is None);
    }
}

/// A search with no answer at the nonces from `i` up to `k` and an answer
/// at `k` returns that answer.
proof fn lemma_tracked_first(h: Seq<u8>, s: u32, i: int, k: int, params: Params)
    requires
        s <= i <= k < params.max_tries,
        forall|j: int| i <= j < k ==> #[trigger] tracked_result(h, s, j, params) is None,
        tracked_result(h, s, k, params) is Some,
    ensures
        tracked_search_from(h, s, i, params) == tracked_result(h, s, k, params),
    decreases k - i,
{
    if i < k {
        assert(tracked_result(h, s, i, params) is None);
        lemma_tracked_first(h, s, i + 1, k, params);
    }
}

/// The board after the draws below `end` holds finitely many squares, each
/// with a nonce below `end`.
proof fn lemma_cells_nonces(h: Seq<u8>, end: int, board_size: u32)
    requires
        end <= u32::MAX + 1,
    ensures
        cells_upto(h, end, board_size).dom().finite(),
        forall|q: u32| #[trigger]
            cells_upto(h, end, board_size).contains_key(q) ==> cells_upto(h, end, board_size)[q].1
                < end,
    decreases end,
{
    if end > 0 {
        lemma_cells_nonces(h, end - 1, board_size);
    }
}

/// The last king drawn below `end` was drawn at its nonce, a king, on its
/// square, and no king was drawn after it.
proof fn lemma_king_upto(h: Seq<u8>, end: int, board_size: u32)
    requires
        end <= u32::MAX + 1,
    ensures
        king_upto(h, end, board_size) matches Some((kp, kn)) ==> {
            &&& 0 <= kn < end
            &&& spec_draw_piece(spec_hash(h, kn)) == Piece::KING
            &&& spec_draw_pos(spec_hash(h, kn), board_size) == kp
            &&& forall|t: int| kn < t <= end ==> #[trigger] king_upto(h, t, board_size) == Some((kp, kn))
        },
        king_upto(h, end, board_size) is None ==> forall|t: int|
            0 <= t <= end ==> #[trigger] king_upto(h, t, board_size) is None,
    decreases end,
{
    if end > 0 {
        lemma_king_upto(h, end - 1, board_size);
        let i = (end - 1) as u32;
        if spec_draw_piece(spec_hash(h, i)) == Piece::KING {
            assert forall|t: int| i < t <= end implies #[trigger] king_upto(h, t, board_size)
                == king_upto(h, end, board_size) by {
                assert(t == end);
            }
        } else {
            if let Some((kp, kn)) = king_upto(h, end, board_size) {
                assert forall|t: int| kn < t <= end implies #[trigger] king_upto(h, t, board_size)
                    == Some((kp, kn)) by {
                    if t == end {
                    } else {
                        assert(t <= end - 1);
                    }
                }
            } else {
                assert forall|t: int| 0 <= t <= end implies #[trigger] king_upto(
                    h,
                    t,
                    board_size,
                ) is None by {
                    if t < end {
                    }
                }
            }
        }
    }
}

/// Two searches that both started no later than a king drawn at `k` count
/// the same threats from then on.
proof fn lemma_threats_after_king(h: Seq<u8>, s1: u32, s2: u32, k: int, end: int, params: Params)
    requires
        s1 <= k,
        s2 <= k,
        k < end,
        k <= u32::MAX,
        spec_draw_piece(spec_hash(h, k as u32)) == Piece::KING,
    ensures
        threats_upto(h, s1, end, params) == threats_upto(h, s2, end, params),
    decreases end,
{
    if end > k + 1 {
        lemma_threats_after_king(h, s1, s2, k, end - 1, params);
    }
}

/// The number of draws from `a` up to below `b` that are not kings and
/// check a king on `king_pos`.
spec fn checks_count(h: Seq<u8>, king_pos: u32, a: int, b: int, params: Params) -> nat
    decreases b - a,
{
    if b <= a {
        0
    } else {
        let e = spec_hash(h, (b - 1) as u32);
        checks_count(h, king_pos, a, b - 1, params) + if spec_draw_piece(e) != Piece::KING && checks(
            params.row_size(),
            king_pos,
            spec_draw_pos(e, params.board_size),
            spec_draw_piece(e),
        ) {
            1nat
        } else {
            0nat
        }
    }
}

/// Counting checks is additive over adjacent ranges.
proof fn lemma_checks_count_split(h: Seq<u8>, king_pos: u32, a: int, b: int, c: int, params: Params)
    requires
        a <= b <= c,
    ensures
        checks_count(h, king_pos, a, c, params) == checks_count(h, king_pos, a, b, params)
            + checks_count(h, king_pos, b, c, params),
    decreases c - b,
{
    if c > b {
        lemma_checks_count_split(h, king_pos, a, b, c - 1, params);
    }
}

/// While the last king stays the one drawn at `kn`, a search counts the
/// threats to it found at its start, `base`, and then each drawn piece that
/// checks it.
proof fn lemma_threat_count(h: Seq<u8>, s: u32, base: int, end: int, params: Params)
    requires
        s <= base <= end <= u32::MAX + 1,
        forall|t: int| base <= t < end ==> spec_draw_piece(#[trigger] spec_hash(h, t as u32)) != Piece::KING,
        king_upto(h, base, params.board_size) is Some,
    ensures
        threats_upto(h, s, end, params).0 == threats_upto(h, s, base, params).0 + checks_count(
            h,
            king_upto(h, base, params.board_size).unwrap().0,
            base,
            end,
            params,
        ),
    decreases end - base,
{
    if end > base {
        lemma_threat_count(h, s, base, end - 1, params);
        lemma_king_upto(h, end - 1, params.board_size);
        lemma_king_upto(h, base, params.board_size);
        let (kp, kn) = king_upto(h, base, params.board_size).unwrap();
        assert(spec_draw_piece(spec_hash(h, (end - 1) as u32)) != Piece::KING);
        assert(king_upto(h, end - 1, params.board_size) == Some((kp, kn))) by {
            if end - 1 > base {
                lemma_king_no_new(h, base, end - 1, params.board_size);
            }
        }
    }
}

/// No king drawn from `base` up to below `end` leaves the last king as it
/// was at `base`.
proof fn lemma_king_no_new(h: Seq<u8>, base: int, end: int, board_size: u32)
    requires
        0 <= base <= end,
        forall|t: int| base <= t < end ==> spec_draw_piece(#[trigger] spec_hash(h, t as u32)) != Piece::KING,
    ensures
        king_upto(h, end, board_size) == king_upto(h, base, board_size),
    decreases end - base,
{
    if end > base {
        assert(spec_draw_piece(spec_hash(h, (end - 1) as u32)) != Piece::KING);
        lemma_king_no_new(h, base, end - 1, board_size);
    }
}

/// The attackers of a king form a finite set on a finite board.
proof fn lemma_attackers_finite(cells: Cells, row_size: u32, king_pos: u32)
    requires
        cells.dom().finite(),
    ensures
        attackers(cells, row_size, king_pos).finite(),
        attacker_nonces(cells, row_size, king_pos).finite(),
{
    assert(attackers(cells, row_size, king_pos).subset_of(cells.dom()));
    vstd::set_lib::lemma_set_subset_finite(cells.dom(), attackers(cells, row_size, king_pos));
    attackers(cells, row_size, king_pos).lemma_map_finite(|q: u32| cells[q].1);
}

/// With no king drawn from `a` up to below `l`, the attackers of a king on
/// `kp` after the draws below `l` are at most those after the draws below `a`
/// and one for each draw in between that checks it.
proof fn lemma_attackers_grow(h: Seq<u8>, kp: u32, a: int, l: int, params: Params)
    requires
        0 <= a <= l <= u32::MAX + 1,
        forall|t: int| a <= t < l ==> spec_draw_piece(#[trigger] spec_hash(h, t as u32)) != Piece::KING,
    ensures
        attackers(cells_upto(h, l, params.board_size), params.row_size(), kp).len() <= attackers(
            cells_upto(h, a, params.board_size),
            params.row_size(),
            kp,
        ).len() + checks_count(h, kp, a, l, params),
    decreases l - a,
{
    if l > a {
        lemma_attackers_grow(h, kp, a, l - 1, params);
        let row = params.row_size();
        let i = (l - 1) as u32;
        let e = spec_hash(h, i);
        let c0 = cells_upto(h, l - 1, params.board_size);
        let c1 = cells_upto(h, l, params.board_size);
        let q = spec_draw_pos(e, params.board_size);
        let p = spec_draw_piece(e);
        assert(p != Piece::KING);
        assert(c1 == c0.insert(q, (p, i)));
        let a0 = attackers(c0, row, kp);
        let a1 = attackers(c1, row, kp);
        lemma_cells_nonces(h, l - 1, params.board_size);
        lemma_cells_nonces(h, l, params.board_size);
        lemma_attackers_finite(c0, row, kp);
        lemma_attackers_finite(c1, row, kp);
        if checks(row, kp, q, p) {
            assert(a1.subset_of(a0.insert(q)));
            vstd::set_lib::lemma_len_subset(a1, a0.insert(q));
        } else {
            assert(a1.subset_of(a0));
            vstd::set_lib::lemma_len_subset(a1, a0);
        }
    }
}

/// The nonces that a search counts as threats are below the nonces it has
/// drawn up to, and finitely many.
proof fn lemma_threats_below(h: Seq<u8>, s: u32, end: int, params: Params)
    requires
        s <= end <= u32::MAX + 1,
    ensures
        threats_upto(h, s, end, params).1.finite(),
        forall|t: u32| #[trigger] threats_upto(h, s, end, params).1.contains(t) ==> t < end,
    decreases end - s,
{
    let row = params.row_size();
    if end <= s {
        if let Some((kp, _)) = king_upto(h, s as int, params.board_size) {
            let c = cells_upto(h, s as int, params.board_size);
            lemma_cells_nonces(h, s as int, params.board_size);
            lemma_attackers_finite(c, row, kp);
            assert forall|t: u32| #[trigger] attacker_nonces(c, row, kp).contains(t) implies t < end by {
                let q = choose|q: u32| attackers(c, row, kp).contains(q) && t == c[q].1;
            }
        }
    } else {
        lemma_threats_below(h, s, end - 1, params);
        let e = spec_hash(h, (end - 1) as u32);
        if spec_draw_piece(e) == Piece::KING {
            let c = cells_upto(h, end, params.board_size);
            let kp = spec_draw_pos(e, params.board_size);
            lemma_cells_nonces(h, end, params.board_size);
            lemma_attackers_finite(c, row, kp);
            assert forall|t: u32| #[trigger] attacker_nonces(c, row, kp).contains(t) implies t < end by {
                let q = choose|q: u32| attackers(c, row, kp).contains(q) && t == c[q].1;
            }
        }
    }
}

/// A finite set of nonces has a least one together with the king's.
proof fn lemma_least_of_exists(ts: Set<u32>, king_nonce: u32)
    requires
        ts.finite(),
    ensures
        is_least_of(least_of(ts, king_nonce), ts, king_nonce),
    decreases ts.len(),
{
    if ts.len() == 0 {
        assert(ts =~= Set::empty());
        assert(is_least_of(king_nonce, ts, king_nonce));
    } else {
        let t0 = ts.choose();
        let rest = ts.remove(t0);
        lemma_least_of_exists(rest, king_nonce);
        let r = least_of(rest, king_nonce);
        if t0 < r {
            assert(is_least_of(t0, ts, king_nonce));
        } else {
            assert(is_least_of(r, ts, king_nonce));
        }
    }
}

/// Restarting a search at the nonce it answered gives the same answer: if
/// the search from nonce 0 answers `(l, hi)`, the search from `l` answers
/// `(l, hi)` too.
pub proof fn lemma_tracked_search_restarts_at_answer(h: Seq<u8>, params: Params, l: u32, hi: u32)
    requires
        spec_tracked_search(h, 0, params) == Some((l, hi)),
    ensures
        spec_tracked_search(h, l, params) == Some((l, hi)),
{
    let bs = params.board_size;
    lemma_tracked_answer(h, 0, 0, params);
    let k = choose|k: int|
        0 <= 0 <= k < params.max_tries && tracked_result(h, 0, k, params) == tracked_search_from(
            h,
            0,
            0,
            params,
        ) && forall|j: int| 0 <= j < k ==> #[trigger] tracked_result(h, 0, j, params) is None;
    assert(k == hi);
    let (kp, kn) = king_upto(h, k + 1, bs).unwrap();
    let t1 = threats_upto(h, 0, k + 1, params);
    lemma_threats_below(h, 0, k + 1, params);
    lemma_least_of_exists(t1.1, kn);
    assert(l == least_of(t1.1, kn));
    lemma_king_upto(h, k + 1, bs);
    assert(l <= kn <= hi);
    // Before `hi`, the search from `l` counts no more threats than the search
    // from 0.
    assert forall|j: int| l <= j < hi implies #[trigger] tracked_result(h, l, j, params) is None by {
        assert(tracked_result(h, 0, j, params) is None);
        lemma_king_upto(h, j + 1, bs);
        if let Some((jp, jn)) = king_upto(h, j + 1, bs) {
            if jn >= l {
                lemma_threats_after_king(h, 0, l, jn as int, j + 1, params);
            } else {
                // The king was drawn before `l`, and no king since.
                assert forall|t: int| jn < t <= j implies spec_draw_piece(
                    #[trigger] spec_hash(h, t as u32),
                ) != Piece::KING by {
                    assert(king_upto(h, t + 1, bs) == Some((jp, jn)));
                }
                assert(king_upto(h, jn + 1, bs) == Some((jp, jn)));
                assert(king_upto(h, l as int, bs) == Some((jp, jn)));
                lemma_threat_count(h, 0, jn + 1, j + 1, params);
                lemma_threat_count(h, l, l as int, j + 1, params);
                lemma_threats_after_king(h, 0, 0, jn as int, jn + 1, params);
                assert(threats_upto(h, 0, jn + 1, params).0 == attackers(
                    cells_upto(h, jn + 1, bs),
                    params.row_size(),
                    jp,
                ).len());
                assert(threats_upto(h, l, l as int, params).0 == attackers(
                    cells_upto(h, l as int, bs),
                    params.row_size(),
                    jp,
                ).len());
                lemma_attackers_grow(h, jp, jn + 1, l as int, params);
                lemma_checks_count_split(h, jp, jn + 1, l as int, j + 1, params);
            }
        }
    }
    // At `hi`, both searches count the threats to the same king since it was
    // drawn.
    lemma_threats_after_king(h, 0, l, kn as int, k + 1, params);
    assert(tracked_result(h, l, k, params) == Some((l, hi)));
    lemma_tracked_first(h, l, l as int, k, params);
}

} // verus!
