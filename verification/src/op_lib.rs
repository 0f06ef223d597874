//! A search that keeps the pieces in the order they were drawn, everywhere on
//! the board, and keeps the nonces of the checking pieces both in a map from
//! squares and in a list.

use std::collections::HashMap;

use vstd::prelude::*;

use crate::external::{hash, isqrt};
use crate::geometry::{checks, is_checking};
use crate::model::{
    board_upto, distinct_nonces, increasing, is_floor_sqrt, lemma_increasing_distinct, is_least, last_king, lemma_board_upto_nonces,
    lemma_floor_sqrt, lemma_least_unique, lemma_threat_fold_finite, lemma_threat_fold_injective,
    lemma_threat_fold_source, lemma_threats_finite, search_from, spec_search, step_board,
    step_result, threat_fold, threats_of, Entry, Params,
};
use crate::piece::{draw, Piece};
use crate::{game_params, read_params, Board};

verus! {

/// `threats` lists, once each, the nonces of the squares in `m`.
pub open spec fn lists_threats(threats: Seq<u32>, m: Map<u32, u32>) -> bool {
    &&& threats.no_duplicates()
    &&& threats.len() == m.len()
    &&& forall|j: int| 0 <= j < threats.len() ==> nonce_in(m, #[trigger] threats[j])
    &&& forall|q: u32| #[trigger] m.contains_key(q) ==> threats.contains(m[q])
}

/// Some square of `m` carries nonce `t`.
pub open spec fn nonce_in(m: Map<u32, u32>, t: u32) -> bool {
    exists|q: u32| #[trigger] m.contains_key(q) && m[q] == t
}

/// No two squares of `m` carry the same nonce.
pub open spec fn injective(m: Map<u32, u32>) -> bool {
    forall|q1: u32, q2: u32|
        #[trigger] m.contains_key(q1) && #[trigger] m.contains_key(q2) && m[q1] == m[q2] ==> q1
            == q2
}

/// The elements of `l` that differ from `x`, in their order.
pub open spec fn without(l: Seq<u32>, x: u32) -> Seq<u32> {
    l.filter(|y: u32| y != x)
}

/// The nonces of the pieces on `board` that check a king on `king_pos`, in
/// the order they were placed: a piece placed on a square drops the nonce
/// listed for that square, and is listed at the end if it checks the king.
pub open spec fn threat_list(board: Seq<Entry>, row_size: u32, king_pos: u32) -> Seq<u32>
    decreases board.len(),
{
    if board.len() == 0 {
        Seq::empty()
    } else {
        let prev = threat_list(board.drop_last(), row_size, king_pos);
        let m = threat_fold(board.drop_last(), row_size, king_pos);
        let e = board.last();
        let kept = if m.contains_key(e.2) {
            without(prev, m[e.2])
        } else {
            prev
        };
        if checks(row_size, king_pos, e.2, e.1) {
            kept.push(e.0)
        } else {
            kept
        }
    }
}

/// Keeps the elements of `v` that differ from `x`, in their order.
fn retain_ne(v: &mut Vec<u32>, x: u32)
    ensures
        final(v)@ == without(old(v)@, x),
        forall|t: u32| #[trigger] final(v)@.contains(t) <==> old(v)@.contains(t) && t != x,
        old(v)@.no_duplicates() ==> final(v)@.no_duplicates(),
        old(v)@.no_duplicates() ==> final(v)@.len() == old(v)@.len() - (if old(v)@.contains(x) {
            1int
        } else {
            0int
        }),
{
    let ghost src = v@;
    let mut out: Vec<u32> = Vec::new();
    let n = v.len();
    let mut k: usize = 0;
    while k < n
        invariant
            n == src.len(),
            v@ == src,
            k <= n,
            out@ == without(src.take(k as int), x),
            forall|t: u32| #[trigger] out@.contains(t) <==> src.take(k as int).contains(t) && t != x,
            src.no_duplicates() ==> out@.no_duplicates(),
            src.no_duplicates() ==> out@.len() == k - (if src.take(k as int).contains(x) {
                1int
            } else {
                0int
            }),
        decreases n - k,
    {
        let y = v[k];
        let ghost before = out@;
        let ghost next = src.take(k + 1);
        let ghost cur = src.take(k as int);
        proof {
            reveal(Seq::filter);
            assert(next.drop_last() == cur);
            assert(next.last() == y);
            assert forall|t: u32| next.contains(t) <==> cur.contains(t) || t == y by {
                if next.contains(t) {
                    let j = choose|j: int| 0 <= j < next.len() && next[j] == t;
                    if j < k {
                        assert(cur[j] == t);
                    }
                }
                if cur.contains(t) {
                    let j = choose|j: int| 0 <= j < cur.len() && cur[j] == t;
                    assert(next[j] == t);
                }
                if t == y {
                    assert(next[k as int] == t);
                }
            }
            if src.no_duplicates() {
                assert(!cur.contains(y)) by {
                    if cur.contains(y) {
                        let j = choose|j: int| 0 <= j < cur.len() && cur[j] == y;
                        assert(src[j] == src[k as int]);
                    }
                }
            }
        }
        if y != x {
            proof {
                if src.no_duplicates() {
                    assert(!before.contains(y));
                    lemma_push_no_dup(before, y);
                }
            }
            out.push(y);
            proof {
                assert forall|t: u32| #[trigger] out@.contains(t) <==> before.contains(t) || t
                    == y by {
                    if out@.contains(t) {
                        let j = choose|j: int| 0 <= j < out@.len() && out@[j] == t;
                        if j < before.len() {
                            assert(before[j] == t);
                        }
                    }
                    if before.contains(t) {
                        let j = choose|j: int| 0 <= j < before.len() && before[j] == t;
                        assert(out@[j] == t);
                    }
                    if t == y {
                        assert(out@[before.len() as int] == t);
                    }
                }
            }
        }
        k += 1;
    }
    proof {
        assert(src.take(n as int) == src);
    }
    *v = out;
}

/// Appending an element that a sequence lacks keeps it free of repeats.
proof fn lemma_push_no_dup(s: Seq<u32>, x: u32)
    requires
        s.no_duplicates(),
        !s.contains(x),
    ensures
        s.push(x).no_duplicates(),
{
    let t = s.push(x);
    assert forall|a: int, b: int| 0 <= a < t.len() && 0 <= b < t.len() && a != b implies t[a]
        != t[b] by {
        if a < s.len() && b < s.len() {
            assert(t[a] == s[a] && t[b] == s[b]);
        } else if a < s.len() {
            assert(t[a] == s[a]);
            assert(s.contains(t[a]));
        } else if b < s.len() {
            assert(t[b] == s[b]);
            assert(s.contains(t[b]));
        }
    }
}

/// Whether `v` holds `x`.
pub(crate) fn vec_contains(v: &Vec<u32>, x: u32) -> (r: bool)
    ensures
        r == v@.contains(x),
{
    let n = v.len();
    let mut k: usize = 0;
    while k < n
        invariant
            n == v@.len(),
            k <= n,
            forall|j: int| 0 <= j < k ==> v@[j] != x,
        decreases n - k,
    {
        if v[k] == x {
            return true;
        }
        k += 1;
    }
    false
}

/// The least element of a non-empty `v`.
pub(crate) fn vec_min(v: &Vec<u32>) -> (r: u32)
    requires
        v@.len() > 0,
    ensures
        v@.contains(r),
        forall|j: int| 0 <= j < v@.len() ==> r <= #[trigger] v@[j],
{
    let n = v.len();
    let mut m = v[0];
    let mut k: usize = 1;
    while k < n
        invariant
            n == v@.len(),
            1 <= k <= n,
            v@.contains(m),
            forall|j: int| 0 <= j < k ==> m <= #[trigger] v@[j],
        decreases n - k,
    {
        if v[k] < m {
            m = v[k];
        }
        k += 1;
    }
    m
}

/// Removing a square keeps the list in step once its nonce is dropped.
proof fn lemma_lists_remove(threats: Seq<u32>, m: Map<u32, u32>, pos: u32, out: Seq<u32>)
    requires
        lists_threats(threats, m),
        injective(m),
        m.dom().finite(),
        m.contains_key(pos),
        forall|t: u32| #[trigger] out.contains(t) <==> threats.contains(t) && t != m[pos],
        out.no_duplicates(),
        out.len() == threats.len() - 1,
    ensures
        lists_threats(out, m.remove(pos)),
        injective(m.remove(pos)),
        m.remove(pos).dom().finite(),
{
    let m2 = m.remove(pos);
    assert(m2.dom() == m.dom().remove(pos));
    assert(m2.len() == m.len() - 1);
    assert forall|j: int| 0 <= j < out.len() implies nonce_in(m2, #[trigger] out[j]) by {
        assert(out.contains(out[j]));
        assert(threats.contains(out[j]));
        let i = choose|i: int| 0 <= i < threats.len() && threats[i] == out[j];
        let q = choose|q: u32| #[trigger] m.contains_key(q) && m[q] == threats[i];
        assert(out[j] != m[pos]);
        assert(q != pos);
        assert(m2.contains_key(q));
        assert(m2[q] == out[j]);
    }
    assert forall|q: u32| #[trigger] m2.contains_key(q) implies out.contains(m2[q]) by {
        assert(m.contains_key(q));
        assert(threats.contains(m[q]));
        assert(m[q] != m[pos]);
    }
    assert(out.no_duplicates());
    assert(out.len() == m2.len());
    assert(forall|q: u32| #[trigger] m2.contains_key(q) ==> out.contains(m2[q]));
}

/// Adding a square with a fresh nonce keeps the list in step once the nonce
/// is appended.
proof fn lemma_lists_insert(threats: Seq<u32>, m: Map<u32, u32>, pos: u32, n: u32)
    requires
        lists_threats(threats, m),
        injective(m),
        m.dom().finite(),
        !m.contains_key(pos),
        forall|q: u32| #[trigger] m.contains_key(q) ==> m[q] != n,
    ensures
        lists_threats(threats.push(n), m.insert(pos, n)),
        injective(m.insert(pos, n)),
{
    let m2 = m.insert(pos, n);
    let t2 = threats.push(n);
    assert(m2.dom() == m.dom().insert(pos));
    assert(!threats.contains(n)) by {
        if threats.contains(n) {
            let i = choose|i: int| 0 <= i < threats.len() && threats[i] == n;
            let q = choose|q: u32| #[trigger] m.contains_key(q) && m[q] == threats[i];
        }
    }
    assert(t2.no_duplicates()) by {
        assert forall|a: int, b: int| 0 <= a < t2.len() && 0 <= b < t2.len() && a != b implies t2[a]
            != t2[b] by {
            if a < threats.len() && b < threats.len() {
                assert(t2[a] == threats[a] && t2[b] == threats[b]);
            } else if a < threats.len() {
                assert(threats.contains(t2[a]));
            } else if b < threats.len() {
                assert(threats.contains(t2[b]));
            }
        }
    }
    assert forall|j: int| 0 <= j < t2.len() implies nonce_in(m2, #[trigger] t2[j]) by {
        if j < threats.len() {
            assert(t2[j] == threats[j]);
            let q = choose|q: u32| #[trigger] m.contains_key(q) && m[q] == threats[j];
            assert(m2.contains_key(q) && m2[q] == t2[j]);
        } else {
            assert(m2.contains_key(pos) && m2[pos] == t2[j]);
        }
    }
    assert forall|q: u32| #[trigger] m2.contains_key(q) implies t2.contains(m2[q]) by {
        if q == pos {
            assert(t2[threats.len() as int] == n);
        } else {
            assert(m.contains_key(q));
            assert(threats.contains(m[q]));
            let i = choose|i: int| 0 <= i < threats.len() && threats[i] == m[q];
            assert(t2[i] == m[q]);
        }
    }
}

/// The map of checking pieces of a board with distinct nonces is finite,
/// without repeated nonces, and lists no nonce that the board lacks.
proof fn lemma_fold_facts(board: Seq<Entry>, row_size: u32, king_pos: u32, fresh: u32)
    requires
        distinct_nonces(board),
        forall|j: int| 0 <= j < board.len() ==> #[trigger] board[j].0 != fresh,
    ensures
        threat_fold(board, row_size, king_pos).dom().finite(),
        injective(threat_fold(board, row_size, king_pos)),
        forall|q: u32| #[trigger]
            threat_fold(board, row_size, king_pos).contains_key(q) ==> threat_fold(
                board,
                row_size,
                king_pos,
            )[q] != fresh,
{
    lemma_threat_fold_finite(board, row_size, king_pos);
    lemma_threat_fold_injective(board, row_size, king_pos);
    lemma_threat_fold_source(board, row_size, king_pos);
    let m = threat_fold(board, row_size, king_pos);
    assert forall|q1: u32, q2: u32|
        #[trigger] m.contains_key(q1) && #[trigger] m.contains_key(q2) && m[q1] == m[q2] implies q1
        == q2 by {}
    assert forall|q: u32| #[trigger] m.contains_key(q) implies m[q] != fresh by {
        let j = choose|j: int| 0 <= j < board.len() && board[j].2 == q && board[j].0 == m[q];
        assert(board[j].0 != fresh);
    }
}

/// The pieces on `board` that check a king on `king_pos`: their nonces in a
/// list, and by square in a map, each square with the nonce of the last
/// piece placed there.
fn in_check_threats(board: &Board, row_size: u32, king_pos: u32) -> (r: (Vec<u32>, HashMap<u32, u32>))
    requires
        row_size > 0,
        distinct_nonces(board@),
    ensures
        r.0@ == threat_list(board@, row_size, king_pos),
        r.1@ == threat_fold(board@, row_size, king_pos),
        lists_threats(r.0@, r.1@),
{
    broadcast use vstd::std_specs::hash::group_hash_axioms;

    let mut threats: Vec<u32> = Vec::new();
    let mut map: HashMap<u32, u32> = HashMap::new();
    let n = board.len();
    let mut idx: usize = 0;
    while idx < n
        invariant
            n == board@.len(),
            idx <= n,
            row_size > 0,
            distinct_nonces(board@),
            map@ == threat_fold(board@.take(idx as int), row_size, king_pos),
            threats@ == threat_list(board@.take(idx as int), row_size, king_pos),
            lists_threats(threats@, map@),
        decreases n - idx,
    {
        let (nonce, piece, piece_pos) = board[idx];
        let ghost prefix = board@.take(idx as int);
        proof {
            assert(board@.take(idx + 1).drop_last() == prefix);
            assert(distinct_nonces(prefix)) by {
                assert forall|j: int, k: int| 0 <= j < k < prefix.len() implies prefix[j].0
                    != prefix[k].0 by {
                    assert(prefix[j] == board@[j] && prefix[k] == board@[k]);
                }
            }
            assert forall|j: int| 0 <= j < prefix.len() implies #[trigger] prefix[j].0 != nonce by {
                assert(prefix[j] == board@[j]);
                assert(board@[idx as int].0 == nonce);
            }
            lemma_fold_facts(prefix, row_size, king_pos, nonce);
        }
        if map.contains_key(&piece_pos) {
            let old_nonce = *map.get(&piece_pos).unwrap();
            let ghost before = threats@;
            retain_ne(&mut threats, old_nonce);
            proof {
                assert(before.contains(old_nonce));
                lemma_lists_remove(before, map@, piece_pos, threats@);
            }
            map.remove(&piece_pos);
        } else {
            assert(map@ == map@.remove(piece_pos));
        }
        if is_checking(row_size, king_pos, piece_pos, piece) {
            proof {
                lemma_lists_insert(threats@, map@, piece_pos, nonce);
            }
            threats.push(nonce);
            map.insert(piece_pos, nonce);
            assert(map@ == threat_fold(board@.take(idx as int), row_size, king_pos).remove(
                piece_pos,
            ).insert(piece_pos, nonce));
        }
        idx += 1;
    }
    assert(board@.take(n as int) == board@);
    (threats, map)
}

/// The nonces of the pieces that check the last king placed on `board`, in
/// the order they were placed; none without a king.
pub open spec fn listed_threats(board: Seq<Entry>, row_size: u32) -> Seq<u32> {
    match last_king(board) {
        Some((king_pos, _)) => threat_list(board, row_size, king_pos),
        None => Seq::empty(),
    }
}

/// The state of a search: the rules, the pieces placed so far, the last king
/// and the pieces that check it, as a list of nonces and by square.
pub struct Search {
    params: Params,
    row_size: u32,
    board: Board,
    last_king: Option<(u32, u32)>,
    threats: Vec<u32>,
    map: HashMap<u32, u32>,
}

impl Search {
    /// The rules of this search.
    pub closed spec fn params(&self) -> Params {
        self.params
    }

    /// The pieces placed so far, in the order they were drawn.
    pub closed spec fn board(&self) -> Seq<Entry> {
        self.board@
    }

    /// The list of threat nonces.
    pub closed spec fn listed(&self) -> Seq<u32> {
        self.threats@
    }

    /// The row size is the board's, the nonces grow along the board, and the
    /// last king and the checking pieces, by square and as a list, are those
    /// of the board.
    pub closed spec fn wf(&self) -> bool {
        &&& self.params.valid()
        &&& self.row_size == self.params.row_size()
        &&& is_floor_sqrt(self.row_size, self.params.board_size)
        &&& increasing(self.board@)
        &&& self.last_king == last_king(self.board@)
        &&& self.map@ == threats_of(self.board@, self.row_size)
        &&& self.threats@ == listed_threats(self.board@, self.row_size)
        &&& lists_threats(self.threats@, self.map@)
    }

    /// A search with an empty board.
    pub fn new(params: Params) -> (s: Self)
        requires
            params.valid(),
        ensures
            s.wf(),
            s.params() == params,
            s.board() == Seq::<Entry>::empty(),
    {
        broadcast use vstd::std_specs::hash::group_hash_axioms;

        let row_size = isqrt(params.board_size);
        proof {
            lemma_floor_sqrt(row_size, params.board_size);
        }
        let s = Search {
            params,
            row_size,
            board: Vec::new(),
            last_king: None,
            threats: Vec::new(),
            map: HashMap::new(),
        };
        assert(s.map@.len() == 0);
        s
    }

    /// Places the piece that nonce `i` draws from hash value `e`, which must
    /// come after every nonce placed so far, and answers once enough pieces
    /// check the last king; then the king's nonce joins the list, unless it
    /// is listed already.
    pub fn step(&mut self, i: u32, e: u64) -> (r: Option<(u32, u32)>)
        requires
            old(self).wf(),
            forall|j: int|
                0 <= j < old(self).board().len() ==> #[trigger] old(self).board()[j].0 < i,
        ensures
            r is None ==> final(self).wf(),
            r is Some ==> ({
                let l = listed_threats(final(self).board(), old(self).params().row_size());
                let king_nonce = last_king(final(self).board()).unwrap().1;
                final(self).listed() == if l.contains(king_nonce) {
                    l
                } else {
                    l.push(king_nonce)
                }
            }),
            final(self).params() == old(self).params(),
            final(self).board() == step_board(old(self).board(), i, e, old(self).params(), false),
            r == step_result(old(self).board(), i, e, old(self).params(), false),
    {
        broadcast use vstd::std_specs::hash::group_hash_axioms;

        let row_size = self.row_size;
        proof {
            lemma_floor_sqrt(row_size, self.params.board_size);
        }
        let (p, pos) = draw(e, self.params.board_size);
        let ghost old_board = self.board@;
        self.board.push((i, p, pos));
        proof {
            assert(self.board@.drop_last() == old_board);
            assert(increasing(self.board@)) by {
                assert forall|j: int, k: int| 0 <= j < k < self.board@.len() implies self.board@[j].0
                    < self.board@[k].0 by {
                    assert(self.board@[j] == old_board[j]);
                    if k < old_board.len() {
                        assert(self.board@[k] == old_board[k]);
                    }
                }
            }
        }
        if p == Piece::KING {
            self.last_king = Some((pos, i));
            proof {
                lemma_increasing_distinct(self.board@);
            }
            let (threats, map) = in_check_threats(&self.board, row_size, pos);
            self.threats = threats;
            self.map = map;
        } else {
            match self.last_king {
                Some((king_pos, _)) => {
                    proof {
                        lemma_increasing_distinct(old_board);
                        lemma_fold_facts(old_board, row_size, king_pos, i);
                    }
                    if self.map.contains_key(&pos) {
                        let old_nonce = *self.map.get(&pos).unwrap();
                        let ghost before = self.threats@;
                        retain_ne(&mut self.threats, old_nonce);
                        proof {
                            assert(before.contains(old_nonce));
                            lemma_lists_remove(before, self.map@, pos, self.threats@);
                        }
                        self.map.remove(&pos);
                    } else {
                        assert(self.map@ == self.map@.remove(pos));
                    }
                    if is_checking(row_size, king_pos, pos, p) {
                        proof {
                            lemma_lists_insert(self.threats@, self.map@, pos, i);
                        }
                        self.threats.push(i);
                        self.map.insert(pos, i);
                        assert(self.map@ == threat_fold(old_board, row_size, king_pos).remove(
                            pos,
                        ).insert(pos, i));
                        assert(self.map@ == threat_fold(old_board, row_size, king_pos).insert(
                            pos,
                            i,
                        ));
                    }
                    assert(self.map@ == threat_fold(self.board@, row_size, king_pos));
                },
                None => {},
            }
        }
        proof {
            lemma_threats_finite(self.board@, row_size);
            assert(self.last_king == last_king(self.board@));
            assert(self.map@ == threats_of(self.board@, self.row_size));
            assert(self.threats@ == listed_threats(self.board@, self.row_size));
            assert(lists_threats(self.threats@, self.map@));
        }
        match self.last_king {
            Some((_, king_nonce)) => {
                if self.threats.len() >= self.params.checks_needed as usize {
                    let ghost listed = self.threats@;
                    if !vec_contains(&self.threats, king_nonce) {
                        self.threats.push(king_nonce);
                        assert(self.threats@[listed.len() as int] == king_nonce);
                    }
                    assert(forall|j: int| 0 <= j < listed.len() ==> self.threats@[j] == listed[j]);
                    assert(self.threats@.len() == listed.len() || self.threats@.len() == listed.len() + 1);
                    let min_threat = vec_min(&self.threats);
                    proof {
                        let m = self.map@;
                        assert(is_least(min_threat, m, king_nonce)) by {
                            let j = choose|j: int|
                                0 <= j < self.threats@.len() && self.threats@[j] == min_threat;
                            if min_threat != king_nonce {
                                assert(j < listed.len());
                                assert(self.threats@[j] == listed[j]);
                                let q = choose|q: u32| #[trigger]
                                    m.contains_key(q) && m[q] == listed[j];
                            }
                            assert(self.threats@.contains(king_nonce));
                            assert forall|q: u32| m.contains_key(q) implies min_threat
                                <= #[trigger] m[q] by {
                                assert(listed.contains(m[q]));
                                let k = choose|k: int| 0 <= k < listed.len() && listed[k] == m[q];
                                assert(self.threats@[k] == listed[k]);
                            }
                        }
                        lemma_least_unique(min_threat, self.map@, king_nonce);
                    }
                    return Some((min_threat, i));
                }
            },
            None => {},
        }
        None
    }
}

/// Searches the draws of the nonces from `start` below the game's limit of
/// tries for the first one after which enough pieces check the last king
/// placed; answers the least nonce among that king and its checking pieces,
/// and the nonce of that draw. Every piece is kept, wherever it lands.
pub fn solve(starting_hash: &[u8], start: u32) -> (r: Option<(u32, u32)>)
    ensures
        r == spec_search(starting_hash@, start, game_params(), false),
{
    let params = read_params();
    let mut search = Search::new(params);
    let max = params.max_tries;
    let mut i = start;
    while i < max
        invariant
            search.wf(),
            search.params() == params,
            params == game_params(),
            max == params.max_tries,
            start <= i,
            search.board() == board_upto(starting_hash@, start, i as int, params, false),
            search_from(starting_hash@, start, start as int, params, false) == search_from(
                starting_hash@,
                start,
                i as int,
                params,
                false,
            ),
        decreases max - i,
    {
        proof {
            lemma_board_upto_nonces(starting_hash@, start, i as int, params, false);
        }
        let e = hash(starting_hash, i);
        let r = search.step(i, e);
        if r.is_some() {
            return r;
        }
        i += 1;
    }
    None
}

/// The contract's entry point.
pub struct Storage {}

impl Storage {
    /// Runs `solve` on a 32-byte hash; no answer is refused with an empty
    /// message.
    pub fn prove(&self, hash: [u8; 32], from: u32) -> (r: Result<(u32, u32), Vec<u8>>)
        ensures
            match spec_search(hash@, from, game_params(), false) {
                Some(result) => r == Ok::<(u32, u32), Vec<u8>>(result),
                None => r matches Err(msg) && msg@.len() == 0,
            },
    {
        match solve(hash.as_slice(), from) {
            Some(result) => Ok(result),
            None => Err(Vec::new()),
        }
    }
}

} // verus!
