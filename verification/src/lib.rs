//! Searches the draws of a hashed board game for a king in check.
//!
//! Each nonce, hashed together with a starting hash, draws a piece and the
//! square it lands on. A search places the draws one after another and stops
//! at the first draw after which enough pieces check the last king placed;
//! it answers the least nonce among that king and the pieces that check it,
//! together with the nonce of the draw that ended the search.
//!
//! The crate root holds the search that keeps the pieces in a list and the
//! checking pieces in a map; `op_lib` holds one that also keeps the checking
//! nonces in a list, and `tracker` one that keeps the board as a map from
//! squares and counts the sliding pieces on each line.

pub mod consistency;
pub mod external;
pub mod geometry;
pub mod model;
pub mod op_lib;
pub mod piece;
pub mod tracker;
pub mod tracker_consistency;
pub mod tracker_model;

use std::collections::HashMap;

use vstd::prelude::*;

use crate::external::{board_size, checks_needed, hash, isqrt, max_tries};
use crate::geometry::{in_bounds, is_checking, pos_to_xy};
use crate::model::{
    board_upto, is_floor_sqrt, is_least, last_king, lemma_floor_sqrt, lemma_least_unique,
    lemma_threats_finite, search_from, spec_search, step_board, step_result, threat_fold,
    threats_of, Entry, Params,
};
use crate::piece::{draw, Piece};
use vstd::std_specs::iter::IteratorSpec;

verus! {

/// The pieces placed so far, in the order they were drawn: nonce, piece, square.
pub type Board = Vec<(u32, Piece, u32)>;

/// The rules that the game's constants give.
pub open spec fn game_params() -> Params {
    Params {
        board_size: crate::external::spec_board_size(),
        checks_needed: crate::external::spec_checks_needed(),
        max_tries: crate::external::spec_max_tries(),
    }
}

/// Reads the game's constants as the rules of a search.
pub fn read_params() -> (r: Params)
    ensures
        r == game_params(),
{
    Params { board_size: board_size(), checks_needed: checks_needed(), max_tries: max_tries() }
}

/// The pieces on `board` that check a king on `king_pos`, by square, each
/// with the nonce of the last piece placed on that square.
fn in_check_threats(board: &Board, row_size: u32, king_pos: u32) -> (map: HashMap<u32, u32>)
    requires
        row_size > 0,
    ensures
        map@ == threat_fold(board@, row_size, king_pos),
{
    broadcast use vstd::std_specs::hash::group_hash_axioms;

    let capacity: u32 = checks_needed();
    let mut map: HashMap<u32, u32> = HashMap::with_capacity(capacity as usize * 2);
    let n = board.len();
    let mut idx: usize = 0;
    while idx < n
        invariant
            n == board@.len(),
            idx <= n,
            row_size > 0,
            map@ == threat_fold(board@.take(idx as int), row_size, king_pos),
        decreases n - idx,
    {
        let (nonce, piece, piece_pos) = board[idx];
        proof {
            assert(board@.take(idx + 1).drop_last() == board@.take(idx as int));
        }
        if is_checking(row_size, king_pos, piece_pos, piece) {
            map.insert(piece_pos, nonce);
        } else {
            if map.contains_key(&piece_pos) {
                map.remove(&piece_pos);
            } else {
                assert(map@ == map@.remove(piece_pos));
            }
        }
        idx += 1;
    }
    assert(board@.take(n as int) == board@);
    map
}

/// The least of `king_nonce` and the nonces in `map`.
fn least_threat(map: &HashMap<u32, u32>, king_nonce: u32) -> (r: u32)
    ensures
        is_least(r, map@, king_nonce),
{
    broadcast use vstd::std_specs::hash::group_hash_axioms;
    broadcast use vstd::std_specs::hash::axiom_spec_values_iter;

    let mut m = king_nonce;
    let ghost vals = map@.values();
    assert(vstd::std_specs::hash::spec_values_iter(map).remaining().unref().to_set() == vals);
    for v in it: map.values()
        invariant
            vals == map@.values(),
            it.seq().unref().to_set() == vals,
            m <= king_nonce,
            m == king_nonce || exists|q: u32| map@.contains_key(q) && map@[q] == m,
            forall|w: u32|
                #![trigger vals.contains(w)]
                vals.contains(w) ==> m <= w || exists|j: int|
                    it.index() <= j < it.seq().len() && *it.seq()[j] == w,
    {
        let ghost s = it.seq().unref();
        assert(s[it.index()] == *v);
        assert(s.contains(*v));
        assert(vals.contains(*v));
        let ghost old_m = m;
        if *v < m {
            m = *v;
        }
        assert forall|w: u32| #![trigger vals.contains(w)] vals.contains(w) implies m <= w || exists|j: int|
            it.index() + 1 <= j < it.seq().len() && *it.seq()[j] == w by {
            if !(old_m <= w) {
                let j = choose|j: int| it.index() <= j < it.seq().len() && *it.seq()[j] == w;
                if j == it.index() {
                    assert(m <= w);
                }
            }
        }
    }
    assert forall|q: u32| map@.contains_key(q) implies m <= #[trigger] map@[q] by {
        assert(vals.contains(map@[q]));
    }
    m
}

/// The state of a search: the rules, the pieces placed so far, the last king
/// and the pieces that check it.
pub struct Search {
    params: Params,
    row_size: u32,
    board: Board,
    last_king: Option<(u32, u32)>,
    threat_map: HashMap<u32, u32>,
}

impl Search {
    /// The rules of this search.
    pub closed spec fn params(&self) -> Params {
        self.params
    }

    /// The pieces placed so far, in the order they were drawn.
    pub closed spec fn board(&self) -> Seq<Entry> {
        self.board@
    }

    /// The row size is the board's, and the last king and the map of checking
    /// pieces are those of the board.
    pub closed spec fn wf(&self) -> bool {
        &&& self.params.valid()
        &&& self.row_size == self.params.row_size()
        &&& is_floor_sqrt(self.row_size, self.params.board_size)
        &&& self.last_king == last_king(self.board@)
        &&& self.threat_map@ == threats_of(self.board@, self.row_size)
    }

    /// A search with an empty board.
    pub fn new(params: Params) -> (s: Self)
        requires
            params.valid(),
        ensures
            s.wf(),
            s.params() == params,
            s.board() == Seq::<Entry>::empty(),
    {
        let row_size = isqrt(params.board_size);
        proof {
            lemma_floor_sqrt(row_size, params.board_size);
        }
        Search {
            params,
            row_size,
            board: Vec::new(),
            last_king: None,
            threat_map: HashMap::with_capacity(params.checks_needed as usize),
        }
    }

    /// Places the piece that nonce `i` draws from hash value `e`, unless it
    /// lands outside the square part of the board, and answers once enough
    /// pieces check the last king.
    pub fn step(&mut self, i: u32, e: u64) -> (r: Option<(u32, u32)>)
        requires
            old(self).wf(),
        ensures
            final(self).wf(),
            final(self).params() == old(self).params(),
            final(self).board() == step_board(old(self).board(), i, e, old(self).params(), true),
            r == step_result(old(self).board(), i, e, old(self).params(), true),
    {
        broadcast use vstd::std_specs::hash::group_hash_axioms;

        let row_size = self.row_size;
        proof {
            lemma_floor_sqrt(row_size, self.params.board_size);
        }
        let (p, pos) = draw(e, self.params.board_size);
        let (x, y) = pos_to_xy(row_size, pos);
        if !in_bounds(row_size, x, y) {
            return None;
        }
        let ghost old_board = self.board@;
        self.board.push((i, p, pos));
        proof {
            assert(self.board@.drop_last() == old_board);
        }
        if p == Piece::KING {
            self.last_king = Some((pos, i));
            self.threat_map = in_check_threats(&self.board, row_size, pos);
        } else {
            match self.last_king {
                Some((king_pos, _)) => {
                    if is_checking(row_size, king_pos, pos, p) {
                        self.threat_map.insert(pos, i);
                    } else if self.threat_map.contains_key(&pos) {
                        self.threat_map.remove(&pos);
                    } else {
                        assert(self.threat_map@ == self.threat_map@.remove(pos));
                    }
                },
                None => {},
            }
        }
        proof {
            lemma_threats_finite(self.board@, row_size);
        }
        match self.last_king {
            Some((_, king_nonce)) => {
                if self.threat_map.len() >= self.params.checks_needed as usize {
                    let min_threat = least_threat(&self.threat_map, king_nonce);
                    proof {
                        lemma_least_unique(min_threat, self.threat_map@, king_nonce);
                    }
                    return Some((min_threat, i));
                }
            },
            None => {},
        }
        None
    }
}

/// Searches the draws of the nonces from `start` below the game's limit of
/// tries for the first one after which enough pieces check the last king
/// placed; answers the least nonce among that king and its checking pieces,
/// and the nonce of that draw. Pieces that land outside the square part of
/// the board are left out.
pub fn solve(starting_hash: &[u8], start: u32) -> (r: Option<(u32, u32)>)
    ensures
        r == spec_search(starting_hash@, start, game_params(), true),
{
    let params = read_params();
    let mut search = Search::new(params);
    let max = params.max_tries;
    let mut i = start;
    while i < max
        invariant
            search.wf(),
            search.params() == params,
            params == game_params(),
            max == params.max_tries,
            start <= i,
            search.board() == board_upto(starting_hash@, start, i as int, params, true),
            search_from(starting_hash@, start, start as int, params, true) == search_from(
                starting_hash@,
                start,
                i as int,
                params,
                true,
            ),
        decreases max - i,
    {
        let e = hash(starting_hash, i);
        let r = search.step(i, e);
        if r.is_some() {
            return r;
        }
        i += 1;
    }
    None
}

/// The contract's entry point.
pub struct Storage {}

impl Storage {
    /// Runs `solve` on a 32-byte hash; no answer is refused with an empty
    /// message.
    pub fn prove(&self, hash: [u8; 32], from: u32) -> (r: Result<(u32, u32), Vec<u8>>)
        ensures
            match spec_search(hash@, from, game_params(), true) {
                Some(result) => r == Ok::<(u32, u32), Vec<u8>>(result),
                None => r matches Err(msg) && msg@.len() == 0,
            },
    {
        match solve(hash.as_slice(), from) {
            Some(result) => Ok(result),
            None => Err(Vec::new()),
        }
    }
}

} // verus!
