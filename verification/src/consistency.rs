//! A search that answers `(l, hi)` answers the same when it is started
//! again at the nonce `l` it answered, or at any nonce between its start
//! and `l`.

use vstd::prelude::*;

use crate::external::spec_hash;
use crate::model::{
    answer, board_upto, entry_of, found, kept, last_king, lemma_board_upto_nonces, lemma_least_exists,
    lemma_threat_fold_finite, lemma_threat_fold_source, lemma_threats_finite, search_from,
    spec_search, step_board, step_result, threat_fold, threats_of, Entry, Params,
};
use crate::geometry::checks;
use crate::piece::Piece;

verus! {

/// A search from `a` builds, past `l`, the board from `a` to `l` followed by
/// the board from `l`.
proof fn lemma_board_upto_split(h: Seq<u8>, a: u32, l: u32, e: int, params: Params, bounded: bool)
    requires
        a <= l <= e,
    ensures
        board_upto(h, a, e, params, bounded) == board_upto(h, a, l as int, params, bounded)
            + board_upto(h, l, e, params, bounded),
    decreases e - l,
{
    if e > l {
        lemma_board_upto_split(h, a, l, e - 1, params, bounded);
        let p = board_upto(h, a, l as int, params, bounded);
        let s = board_upto(h, l, e - 1, params, bounded);
        let i = (e - 1) as u32;
        let entry = entry_of(i, spec_hash(h, i), params.board_size);
        if kept(params.row_size(), entry.2, bounded) {
            assert((p + s).push(entry) == p + s.push(entry));
        }
    } else {
        assert(board_upto(h, l, e, params, bounded) == Seq::<Entry>::empty());
        assert(board_upto(h, a, l as int, params, bounded) + Seq::<Entry>::empty() == board_upto(
            h,
            a,
            l as int,
            params,
            bounded,
        ));
    }
}

/// A search that answers from nonce `i` answers at some nonce `k` from `i`
/// on, and at no nonce before `k`.
proof fn lemma_search_from_answer(h: Seq<u8>, a: u32, i: int, params: Params, bounded: bool)
    requires
        search_from(h, a, i, params, bounded) is Some,
    ensures
        exists|k: int|
            a <= i <= k < params.max_tries && step_result(
                board_upto(h, a, k, params, bounded),
                k as u32,
                spec_hash(h, k as u32),
                params,
                bounded,
            ) == search_from(h, a, i, params, bounded) && forall|j: int|
                i <= j < k ==> #[trigger] step_result(
                    board_upto(h, a, j, params, bounded),
                    j as u32,
                    spec_hash(h, j as u32),
                    params,
                    bounded,
                ) is None,
    decreases params.max_tries - i,
{
    let r = step_result(
        board_upto(h, a, i, params, bounded),
        i as u32,
        spec_hash(h, i as u32),
        params,
        bounded,
    );
    if r is None {
        lemma_search_from_answer(h, a, i + 1, params, bounded);
        let k = choose|k: int|
            a <= i + 1 <= k < params.max_tries && step_result(
                board_upto(h, a, k, params, bounded),
                k as u32,
                spec_hash(h, k as u32),
                params,
                bounded,
            ) == search_from(h, a, i + 1, params, bounded) && forall|j: int|
                i + 1 <= j < k ==> #[trigger] step_result(
                    board_upto(h, a, j, params, bounded),
                    j as u32,
                    spec_hash(h, j as u32),
                    params,
                    bounded,
                ) is None;
        assert(forall|j: int|
            i <= j < k ==> #[trigger] step_result(
                board_upto(h, a, j, params, bounded),
                j as u32,
                spec_hash(h, j as u32),
                params,
                bounded,
            ) is None);
    }
}

/// A search that finds no answer at the nonces from `i` up to `k` and an
/// answer at `k` returns that answer.
proof fn lemma_search_from_first(h: Seq<u8>, a: u32, i: int, k: int, params: Params, bounded: bool)
    requires
        a <= i <= k < params.max_tries,
        forall|j: int|
            i <= j < k ==> #[trigger] step_result(
                board_upto(h, a, j, params, bounded),
                j as u32,
                spec_hash(h, j as u32),
                params,
                bounded,
            ) is None,
        step_result(
            board_upto(h, a, k, params, bounded),
            k as u32,
            spec_hash(h, k as u32),
            params,
            bounded,
        ) is Some,
    ensures
        search_from(h, a, i, params, bounded) == step_result(
            board_upto(h, a, k, params, bounded),
            k as u32,
            spec_hash(h, k as u32),
            params,
            bounded,
        ),
    decreases k - i,
{
    if i < k {
        assert(step_result(
            board_upto(h, a, i, params, bounded),
            i as u32,
            spec_hash(h, i as u32),
            params,
            bounded,
        ) is None);
        lemma_search_from_first(h, a, i + 1, k, params, bounded);
    }
}

/// Every nonce on `board` is below `l`.
pub open spec fn all_below(board: Seq<Entry>, l: u32) -> bool {
    forall|j: int| 0 <= j < board.len() ==> #[trigger] board[j].0 < l
}

/// A piece placed after `p` checks the king exactly where it does on the
/// whole board, and the whole board's checking pieces with a nonce of at
/// least `l` all come after `p`.
proof fn lemma_threat_fold_suffix(p: Seq<Entry>, s: Seq<Entry>, row_size: u32, king_pos: u32, l: u32)
    requires
        all_below(p, l),
    ensures
        forall|q: u32| #[trigger]
            threat_fold(s, row_size, king_pos).contains_key(q) ==> threat_fold(
                p + s,
                row_size,
                king_pos,
            ).contains_key(q) && threat_fold(p + s, row_size, king_pos)[q] == threat_fold(
                s,
                row_size,
                king_pos,
            )[q],
        forall|q: u32| #[trigger]
            threat_fold(p + s, row_size, king_pos).contains_key(q) && threat_fold(
                p + s,
                row_size,
                king_pos,
            )[q] >= l ==> threat_fold(s, row_size, king_pos).contains_key(q),
    decreases s.len(),
{
    if s.len() == 0 {
        assert(p + s == p);
        lemma_threat_fold_source(p, row_size, king_pos);
        let mp = threat_fold(p, row_size, king_pos);
        assert forall|q: u32| #[trigger] mp.contains_key(q) implies mp[q] < l by {
            let j = choose|j: int| 0 <= j < p.len() && p[j].2 == q && p[j].0 == mp[q];
            assert(p[j].0 < l);
        }
    } else {
        let s0 = s.drop_last();
        lemma_threat_fold_suffix(p, s0, row_size, king_pos, l);
        assert((p + s).drop_last() == p + s0);
        assert((p + s).last() == s.last());
        let e = s.last();
        let mf0 = threat_fold(p + s0, row_size, king_pos);
        let ms0 = threat_fold(s0, row_size, king_pos);
        let mf = threat_fold(p + s, row_size, king_pos);
        let ms = threat_fold(s, row_size, king_pos);
        if checks(row_size, king_pos, e.2, e.1) {
            assert(mf == mf0.insert(e.2, e.0));
            assert(ms == ms0.insert(e.2, e.0));
        } else {
            assert(mf == mf0.remove(e.2));
            assert(ms == ms0.remove(e.2));
        }
        assert forall|q: u32| #[trigger] ms.contains_key(q) implies mf.contains_key(q) && mf[q]
            == ms[q] by {
            if q != e.2 {
                assert(ms0.contains_key(q));
            }
        }
        assert forall|q: u32| #[trigger] mf.contains_key(q) && mf[q] >= l implies ms.contains_key(
            q,
        ) by {
            if q != e.2 {
                assert(mf0.contains_key(q));
            }
        }
    }
}

/// The last king of `p + s` is that of `s` once `s` holds one, and a last king
/// with a nonce of at least `l` comes after `p`.
proof fn lemma_last_king_suffix(p: Seq<Entry>, s: Seq<Entry>, l: u32)
    requires
        all_below(p, l),
    ensures
        last_king(s) is Some ==> last_king(p + s) == last_king(s),
        (last_king(p + s) matches Some((_, n)) && n >= l) ==> last_king(s) == last_king(p + s),
    decreases s.len(),
{
    if s.len() == 0 {
        assert(p + s == p);
        lemma_last_king_below(p, l);
    } else {
        let s0 = s.drop_last();
        lemma_last_king_suffix(p, s0, l);
        assert((p + s).drop_last() == p + s0);
        assert((p + s).last() == s.last());
    }
}

/// The last king of a board has one of its nonces.
proof fn lemma_last_king_below(p: Seq<Entry>, l: u32)
    requires
        all_below(p, l),
    ensures
        last_king(p) matches Some((_, n)) ==> n < l,
    decreases p.len(),
{
    if p.len() > 0 {
        lemma_last_king_below(p.drop_last(), l);
        assert(p.last().0 < l);
    }
}

/// The answer of a board is a nonce of one of its pieces, and a king is on
/// any board that `found` accepts.
proof fn lemma_answer_on_board(board: Seq<Entry>, row_size: u32, checks_needed: u32)
    requires
        found(board, row_size, checks_needed),
    ensures
        exists|j: int| 0 <= j < board.len() && board[j].0 == answer(board, row_size),
{
    let (kp, kn) = last_king(board).unwrap();
    lemma_last_king_on_board(board);
    lemma_threats_finite(board, row_size);
    let m = threats_of(board, row_size);
    lemma_least_exists(m, kn);
    let r = answer(board, row_size);
    if r != kn {
        let q = choose|q: u32| m.contains_key(q) && m[q] == r;
        lemma_threat_fold_source(board, row_size, kp);
    }
}

/// The last king of a board is one of its pieces.
proof fn lemma_last_king_on_board(board: Seq<Entry>)
    ensures
        last_king(board) matches Some((_, n)) ==> exists|j: int|
            0 <= j < board.len() && board[j].0 == n,
    decreases board.len(),
{
    if board.len() > 0 {
        lemma_last_king_on_board(board.drop_last());
        if board.last().1 != Piece::KING {
            if let Some((_, n)) = last_king(board) {
                let j = choose|j: int|
                    0 <= j < board.drop_last().len() && board.drop_last()[j].0 == n;
                assert(board[j] == board.drop_last()[j]);
            }
        } else {
            assert(board[board.len() - 1].0 == board.last().0);
        }
    }
}

/// The pieces placed before the nonce a search answered never change its
/// answer: if a search from `start` answers `(l, hi)`, a search started
/// again at any nonce `s` from `start` up to `l` answers `(l, hi)` too.
pub proof fn lemma_search_restarts_below_answer(
    h: Seq<u8>,
    start: u32,
    params: Params,
    bounded: bool,
    l: u32,
    hi: u32,
    s: u32,
)
    requires
        spec_search(h, start, params, bounded) == Some((l, hi)),
        start <= s <= l,
    ensures
        spec_search(h, s, params, bounded) == Some((l, hi)),
{
    let row = params.row_size();
    lemma_search_from_answer(h, start, start as int, params, bounded);
    let k = choose|k: int|
        start <= start <= k < params.max_tries && step_result(
            board_upto(h, start, k, params, bounded),
            k as u32,
            spec_hash(h, k as u32),
            params,
            bounded,
        ) == search_from(h, start, start as int, params, bounded) && forall|j: int|
            start <= j < k ==> #[trigger] step_result(
                board_upto(h, start, j, params, bounded),
                j as u32,
                spec_hash(h, j as u32),
                params,
                bounded,
            ) is None;
    assert(k == hi);
    let full_k = board_upto(h, start, k + 1, params, bounded);
    assert(full_k == step_board(
        board_upto(h, start, k, params, bounded),
        k as u32,
        spec_hash(h, k as u32),
        params,
        bounded,
    ));
    assert(found(full_k, row, params.checks_needed));
    assert(answer(full_k, row) == l);
    // The answer is a nonce on the board, so the search from `start` has
    // placed it: start <= l <= hi.
    lemma_answer_on_board(full_k, row, params.checks_needed);
    lemma_board_upto_nonces(h, start, k + 1, params, bounded);
    assert(start <= l <= hi);
    lemma_board_upto_nonces(h, start, s as int, params, bounded);
    let p = board_upto(h, start, s as int, params, bounded);
    assert(all_below(p, l)) by {
        assert forall|j: int| 0 <= j < p.len() implies #[trigger] p[j].0 < l by {
            assert(p[j].0 < s);
        }
    }
    // Before `hi`, the search from `s` sees a part of what the search from
    // `start` sees, and finds nothing either.
    assert forall|j: int| s <= j < hi implies #[trigger] step_result(
        board_upto(h, s, j, params, bounded),
        j as u32,
        spec_hash(h, j as u32),
        params,
        bounded,
    ) is None by {
        let jj = j as u32;
        let e = spec_hash(h, jj);
        let full = step_board(board_upto(h, start, j, params, bounded), jj, e, params, bounded);
        let part = step_board(board_upto(h, s, j, params, bounded), jj, e, params, bounded);
        lemma_board_upto_split(h, start, s, j + 1, params, bounded);
        assert(full == board_upto(h, start, j + 1, params, bounded));
        assert(part == board_upto(h, s, j + 1, params, bounded));
        assert(full == p + part);
        assert(step_result(board_upto(h, start, j, params, bounded), jj, e, params, bounded) is None);
        if kept(row, entry_of(jj, e, params.board_size).2, bounded) && found(
            part,
            row,
            params.checks_needed,
        ) {
            lemma_last_king_suffix(p, part, l);
            let (kp, _) = last_king(part).unwrap();
            lemma_threat_fold_suffix(p, part, row, kp, l);
            lemma_threat_fold_finite(full, row, kp);
            let ms = threat_fold(part, row, kp);
            let mf = threat_fold(full, row, kp);
            assert(ms.dom().subset_of(mf.dom()));
            vstd::set_lib::lemma_len_subset(ms.dom(), mf.dom());
            assert(found(full, row, params.checks_needed));
        }
    }
    // At `hi`, every piece that counts comes after `l`, so both searches see
    // the same king and the same checking pieces.
    let part_k = board_upto(h, s, k + 1, params, bounded);
    lemma_board_upto_split(h, start, s, k + 1, params, bounded);
    assert(full_k == p + part_k);
    assert(part_k == step_board(
        board_upto(h, s, k, params, bounded),
        k as u32,
        spec_hash(h, k as u32),
        params,
        bounded,
    ));
    let (kp, kn) = last_king(full_k).unwrap();
    lemma_threats_finite(full_k, row);
    let mf = threats_of(full_k, row);
    lemma_least_exists(mf, kn);
    assert(l <= kn);
    lemma_last_king_suffix(p, part_k, l);
    assert(last_king(part_k) == last_king(full_k));
    lemma_threat_fold_suffix(p, part_k, row, kp, l);
    let ms = threat_fold(part_k, row, kp);
    assert(ms == mf) by {
        assert forall|q: u32| ms.contains_key(q) <==> mf.contains_key(q) by {
            if mf.contains_key(q) {
                assert(l <= mf[q]);
            }
        }
        assert forall|q: u32| #[trigger] ms.contains_key(q) implies ms[q] == mf[q] by {}
        assert(ms =~= mf);
    }
    assert(found(part_k, row, params.checks_needed));
    assert(answer(part_k, row) == l);
    assert(step_result(board_upto(h, s, k, params, bounded), k as u32, spec_hash(h, k as u32), params, bounded)
        == Some((l, hi)));
    lemma_search_from_first(h, s, s as int, k, params, bounded);
}

/// Restarting a search at the nonce it answered gives the same answer: if a
/// search from `start` answers `(l, hi)`, the search from `l` answers
/// `(l, hi)` too.
pub proof fn lemma_search_restarts_at_answer(
    h: Seq<u8>,
    start: u32,
    params: Params,
    bounded: bool,
    l: u32,
    hi: u32,
)
    requires
        spec_search(h, start, params, bounded) == Some((l, hi)),
    ensures
        spec_search(h, l, params, bounded) == Some((l, hi)),
{
    lemma_answer_after_start(h, start, params, bounded, l, hi);
    lemma_search_restarts_below_answer(h, start, params, bounded, l, hi, l);
}

/// The nonce a search answers is one it has drawn: from its start on.
proof fn lemma_answer_after_start(h: Seq<u8>, start: u32, params: Params, bounded: bool, l: u32, hi: u32)
    requires
        spec_search(h, start, params, bounded) == Some((l, hi)),
    ensures
        start <= l <= hi,
{
    let row = params.row_size();
    lemma_search_from_answer(h, start, start as int, params, bounded);
    let k = choose|k: int|
        start <= start <= k < params.max_tries && step_result(
            board_upto(h, start, k, params, bounded),
            k as u32,
            spec_hash(h, k as u32),
            params,
            bounded,
        ) == search_from(h, start, start as int, params, bounded) && forall|j: int|
            start <= j < k ==> #[trigger] step_result(
                board_upto(h, start, j, params, bounded),
                j as u32,
                spec_hash(h, j as u32),
                params,
                bounded,
            ) is None;
    assert(k == hi);
    let full_k = board_upto(h, start, k + 1, params, bounded);
    assert(full_k == step_board(
        board_upto(h, start, k, params, bounded),
        k as u32,
        spec_hash(h, k as u32),
        params,
        bounded,
    ));
    assert(found(full_k, row, params.checks_needed));
    assert(answer(full_k, row) == l);
    lemma_answer_on_board(full_k, row, params.checks_needed);
    lemma_board_upto_nonces(h, start, k + 1, params, bounded);
}

} // verus!
