//! A search that keeps its board as a map from squares, counts the sliding
//! pieces on every row, column and diagonal, and replays the draws before
//! its start.

use std::collections::BTreeMap;

use vstd::prelude::*;

use crate::external::{hash, isqrt, spec_hash};
use crate::geometry::{
    checks, col_of, get_anti_diagonal, get_diagonal, get_y_on_anti_diagonal, in_bounds,
    lemma_dist_product, pos_to_xy, row_of, xy_to_pos,
};
use crate::model::{is_floor_sqrt, lemma_floor_sqrt, on_board, Params};
use crate::op_lib::{vec_contains, vec_min};
use crate::piece::{draw, Piece};
use crate::tracker_model::{
    answer_of, attacker_nonces, attackers, cells_upto, is_least_of, king_upto, lemma_attackers_split,
    lemma_least_of_unique, lemma_line_set_finite, lemma_push_to_set, lemma_line_scan_len, lemma_line_scan_set, line_walk, attack_scan, lemma_line_set_insert, lemma_line_set_remove,
    lemma_line_set_small, lemma_scan_empty, lemma_scan_step, lemma_square_of, line_index, line_piece,
    line_set, move_scan, move_set, next_threats, point_scan, line_scan, point_set, scan_set, sliding_set, spec_tracked_search,
    summary, threats_upto, tracked_search_from, Cells,
};
use crate::{game_params, read_params};

verus! {

/// The board: each occupied square with its piece and the nonce that drew it.
pub type Board = BTreeMap<u32, (Piece, u32)>;

/// `s` with entry `i` raised by one when `cond` holds and `i` is an index.
pub open spec fn bump(s: Seq<u32>, cond: bool, i: int) -> Seq<u32> {
    if cond && 0 <= i < s.len() {
        s.update(i, (s[i] + 1) as u32)
    } else {
        s
    }
}

/// `s` with entry `i` lowered by one, but not below zero, when `cond` holds
/// and `i` is an index.
pub open spec fn drop_one(s: Seq<u32>, cond: bool, i: int) -> Seq<u32> {
    if cond && 0 <= i < s.len() {
        s.update(i, if s[i] == 0 { 0u32 } else { (s[i] - 1) as u32 })
    } else {
        s
    }
}

/// Uncounting a piece right after counting it restores the counters: a
/// raise and the lowering of the same entry cancel.
pub proof fn lemma_drop_one_undoes_bump(s: Seq<u32>, cond: bool, i: int)
    requires
        cond && 0 <= i < s.len() ==> s[i] < u32::MAX,
    ensures
        drop_one(bump(s, cond, i), cond, i) == s,
{
    if cond && 0 <= i < s.len() {
        assert(drop_one(bump(s, cond, i), cond, i) =~= s);
    }
}

/// Counting two pieces gives the same counters in either order.
pub proof fn lemma_bumps_commute(s: Seq<u32>, c1: bool, i: int, c2: bool, j: int)
    requires
        forall|k: int| 0 <= k < s.len() ==> s[k] + 2 <= u32::MAX,
    ensures
        bump(bump(s, c1, i), c2, j) == bump(bump(s, c2, j), c1, i),
{
    assert(bump(bump(s, c1, i), c2, j) =~= bump(bump(s, c2, j), c1, i));
}

/// The moves from which a pawn checks a king: one column aside, one row
/// below.
fn pawn_moves() -> (r: [(i32, i32); 2])
    ensures
        r@ == seq![(-1i32, -1i32), (1i32, -1i32)],
{
    [(-1, -1), (1, -1)]
}

/// The moves from which a knight checks a king.
fn knight_moves() -> (r: [(i32, i32); 8])
    ensures
        r@ == seq![
            (-2i32, -1i32),
            (-2i32, 1i32),
            (-1i32, -2i32),
            (-1i32, 2i32),
            (1i32, -2i32),
            (1i32, 2i32),
            (2i32, -1i32),
            (2i32, 1i32),
        ],
{
    [(-2, -1), (-2, 1), (-1, -2), (-1, 2), (1, -2), (1, 2), (2, -1), (2, 1)]
}

/// The moves from which a king checks a king.
fn king_moves() -> (r: [(i32, i32); 8])
    ensures
        r@ == seq![
            (-1i32, -1i32),
            (-1i32, 0i32),
            (-1i32, 1i32),
            (0i32, -1i32),
            (0i32, 1i32),
            (1i32, -1i32),
            (1i32, 0i32),
            (1i32, 1i32),
        ],
{
    [(-1, -1), (-1, 0), (-1, 1), (0, -1), (0, 1), (1, -1), (1, 0), (1, 1)]
}

/// Two sequences without repeats and with disjoint sets join into one
/// without repeats whose set is the union; mapping distributes over the join.
proof fn lemma_join(a: Seq<u32>, b: Seq<u32>, cells: Cells)
    requires
        a.no_duplicates(),
        b.no_duplicates(),
        a.to_set().disjoint(b.to_set()),
    ensures
        (a + b).no_duplicates(),
        (a + b).to_set() == a.to_set().union(b.to_set()),
        (a + b).map_values(|q: u32| cells[q].1) == a.map_values(|q: u32| cells[q].1) + b.map_values(
            |q: u32| cells[q].1,
        ),
{
    let t = a + b;
    assert forall|i: int, j: int| 0 <= i < t.len() && 0 <= j < t.len() && i != j implies t[i]
        != t[j] by {
        if i < a.len() && j >= a.len() {
            assert(a.to_set().contains(t[i]));
            assert(b.to_set().contains(t[j])) by {
                assert(b[j - a.len()] == t[j]);
            }
        } else if j < a.len() && i >= a.len() {
            assert(a.to_set().contains(t[j]));
            assert(b.to_set().contains(t[i])) by {
                assert(b[i - a.len()] == t[i]);
            }
        }
    }
    assert forall|x: u32| t.to_set().contains(x) <==> a.to_set().contains(x) || b.to_set().contains(
        x,
    ) by {
        if t.contains(x) {
            let i = choose|i: int| 0 <= i < t.len() && t[i] == x;
            if i >= a.len() {
                assert(b[i - a.len()] == x);
            }
        }
        if a.contains(x) {
            let i = choose|i: int| 0 <= i < a.len() && a[i] == x;
            assert(t[i] == x);
        }
        if b.contains(x) {
            let i = choose|i: int| 0 <= i < b.len() && b[i] == x;
            assert(t[i + a.len()] == x);
        }
    }
    assert(t.to_set() =~= a.to_set().union(b.to_set()));
    assert(t.map_values(|q: u32| cells[q].1) =~= a.map_values(|q: u32| cells[q].1) + b.map_values(
        |q: u32| cells[q].1,
    ));
}

/// The number of sliding pieces on each row, column, diagonal and
/// anti-diagonal of the square part of the board.
struct ThreatTracker {
    rows: Vec<u32>,
    cols: Vec<u32>,
    diags: Vec<u32>,
    anti_diags: Vec<u32>,
    row_size: u32,
}

impl ThreatTracker {
    /// The counters of lines of a kind.
    spec fn counter(&self, kind: int) -> Seq<u32> {
        if kind == 0 {
            self.rows@
        } else if kind == 1 {
            self.cols@
        } else if kind == 2 {
            self.diags@
        } else {
            self.anti_diags@
        }
    }

    /// The counters have one entry per line of a board with rows of
    /// `row_size` squares.
    spec fn shaped(&self) -> bool {
        &&& 0 < self.row_size <= 65535
        &&& self.rows@.len() == self.row_size
        &&& self.cols@.len() == self.row_size
        &&& self.diags@.len() == 2 * self.row_size - 1
        &&& self.anti_diags@.len() == 2 * self.row_size - 1
    }

    /// Each counter holds the number of sliding pieces of `cells` on its line.
    spec fn counts_match(&self, cells: Cells) -> bool {
        &&& self.shaped()
        &&& cells.dom().finite()
        &&& forall|kind: int, i: int|
            0 <= kind < 4 && 0 <= i < self.counter(kind).len() ==> #[trigger] self.counter(kind)[i]
                == line_set(cells, self.row_size, kind, i).len()
    }

    /// Counters for an empty board of `board_size` squares.
    fn new(board_size: u32) -> (t: Self)
        requires
            board_size > 0,
        ensures
            t.counts_match(Map::empty()),
            t.row_size * t.row_size <= board_size < (t.row_size + 1) * (t.row_size + 1),
    {
        let row_size = isqrt(board_size);
        proof {
            crate::model::lemma_floor_sqrt(row_size, board_size);
        }
        let diag_count = (2 * row_size - 1) as usize;
        let t = ThreatTracker {
            rows: vec![0; row_size as usize],
            cols: vec![0; row_size as usize],
            diags: vec![0; diag_count],
            anti_diags: vec![0; diag_count],
            row_size,
        };
        proof {
            assert forall|kind: int, i: int|
                0 <= kind < 4 && 0 <= i < t.counter(kind).len() implies #[trigger] t.counter(
                kind,
            )[i] == line_set(Map::empty(), row_size, kind, i).len() by {
                assert(line_set(Map::empty(), row_size, kind, i) == Set::<u32>::empty());
            }
        }
        t
    }

    /// Counts the lines through `pos` on which `piece` slides, if `pos` lies
    /// on the square part of the board.
    fn add_piece_threats(&mut self, pos: u32, piece: Piece)
        requires
            old(self).shaped(),
            forall|kind: int|
                0 <= kind < 4 && on_board(old(self).row_size, pos) && line_piece(kind, piece) && 0
                    <= line_index(kind, old(self).row_size, pos) < old(self).counter(kind).len()
                    ==> #[trigger] old(self).counter(kind)[line_index(
                    kind,
                    old(self).row_size,
                    pos,
                )] < u32::MAX,
        ensures
            final(self).shaped(),
            final(self).row_size == old(self).row_size,
            forall|kind: int|
                0 <= kind < 4 ==> #[trigger] final(self).counter(kind) == bump(
                    old(self).counter(kind),
                    on_board(old(self).row_size, pos) && line_piece(kind, piece),
                    line_index(kind, old(self).row_size, pos),
                ),
    {
        let (x, y) = pos_to_xy(self.row_size, pos);

        if x >= self.row_size || y >= self.row_size {
            return;
        }
        let ghost row_size = self.row_size;
        assert(line_index(0, row_size, pos) == y && line_index(1, row_size, pos) == x);
        assert(line_index(2, row_size, pos) == x + y);
        assert(line_index(3, row_size, pos) == x + row_size - 1 - y);
        proof {
            assert(line_piece(0, piece) ==> self.counter(0)[line_index(0, row_size, pos)] < u32::MAX);
            assert(line_piece(1, piece) ==> self.counter(1)[line_index(1, row_size, pos)] < u32::MAX);
            assert(line_piece(2, piece) ==> self.counter(2)[line_index(2, row_size, pos)] < u32::MAX);
            assert(line_piece(3, piece) ==> self.counter(3)[line_index(3, row_size, pos)] < u32::MAX);
        }
        match piece {
            Piece::CASTLE => {
                if y < self.rows.len() as u32 {
                    let c = self.rows[y as usize];
                    self.rows.set(y as usize, c + 1);
                }
                if x < self.cols.len() as u32 {
                    let c = self.cols[x as usize];
                    self.cols.set(x as usize, c + 1);
                }
            },
            Piece::BISHOP => {
                let diag = get_diagonal(x, y);
                let anti_diag = get_anti_diagonal(x, y, self.row_size);

                if diag < self.diags.len() as u32 {
                    let c = self.diags[diag as usize];
                    self.diags.set(diag as usize, c + 1);
                }
                if anti_diag < self.anti_diags.len() as u32 {
                    let c = self.anti_diags[anti_diag as usize];
                    self.anti_diags.set(anti_diag as usize, c + 1);
                }
            },
            Piece::QUEEN => {
                if y < self.rows.len() as u32 {
                    let c = self.rows[y as usize];
                    self.rows.set(y as usize, c + 1);
                }
                if x < self.cols.len() as u32 {
                    let c = self.cols[x as usize];
                    self.cols.set(x as usize, c + 1);
                }

                let diag = get_diagonal(x, y);
                let anti_diag = get_anti_diagonal(x, y, self.row_size);

                if diag < self.diags.len() as u32 {
                    let c = self.diags[diag as usize];
                    self.diags.set(diag as usize, c + 1);
                }
                if anti_diag < self.anti_diags.len() as u32 {
                    let c = self.anti_diags[anti_diag as usize];
                    self.anti_diags.set(anti_diag as usize, c + 1);
                }
            },
            _ => {},
        }
    }

    /// Uncounts the lines through `pos` on which `piece` slides, if `pos`
    /// lies on the square part of the board; a counter at zero stays there.
    fn remove_piece_threats(&mut self, pos: u32, piece: Piece)
        requires
            old(self).shaped(),
        ensures
            final(self).shaped(),
            final(self).row_size == old(self).row_size,
            forall|kind: int|
                0 <= kind < 4 ==> #[trigger] final(self).counter(kind) == drop_one(
                    old(self).counter(kind),
                    on_board(old(self).row_size, pos) && line_piece(kind, piece),
                    line_index(kind, old(self).row_size, pos),
                ),
    {
        let (x, y) = pos_to_xy(self.row_size, pos);

        if x >= self.row_size || y >= self.row_size {
            return;
        }
        let ghost row_size = self.row_size;
        assert(line_index(0, row_size, pos) == y && line_index(1, row_size, pos) == x);
        assert(line_index(2, row_size, pos) == x + y);
        assert(line_index(3, row_size, pos) == x + row_size - 1 - y);
        match piece {
            Piece::CASTLE => {
                if y < self.rows.len() as u32 {
                    let c = self.rows[y as usize].saturating_sub(1);
                    self.rows.set(y as usize, c);
                }
                if x < self.cols.len() as u32 {
                    let c = self.cols[x as usize].saturating_sub(1);
                    self.cols.set(x as usize, c);
                }
            },
            Piece::BISHOP => {
                let diag = get_diagonal(x, y);
                let anti_diag = get_anti_diagonal(x, y, self.row_size);

                if diag < self.diags.len() as u32 {
                    let c = self.diags[diag as usize].saturating_sub(1);
                    self.diags.set(diag as usize, c);
                }
                if anti_diag < self.anti_diags.len() as u32 {
                    let c = self.anti_diags[anti_diag as usize].saturating_sub(1);
                    self.anti_diags.set(anti_diag as usize, c);
                }
            },
            Piece::QUEEN => {
                if y < self.rows.len() as u32 {
                    let c = self.rows[y as usize].saturating_sub(1);
                    self.rows.set(y as usize, c);
                }
                if x < self.cols.len() as u32 {
                    let c = self.cols[x as usize].saturating_sub(1);
                    self.cols.set(x as usize, c);
                }

                let diag = get_diagonal(x, y);
                let anti_diag = get_anti_diagonal(x, y, self.row_size);

                if diag < self.diags.len() as u32 {
                    let c = self.diags[diag as usize].saturating_sub(1);
                    self.diags.set(diag as usize, c);
                }
                if anti_diag < self.anti_diags.len() as u32 {
                    let c = self.anti_diags[anti_diag as usize].saturating_sub(1);
                    self.anti_diags.set(anti_diag as usize, c);
                }
            },
            _ => {},
        }
    }

    /// Places `piece`, drawn by `nonce`, on `pos`, replacing what stood
    /// there, and keeps the counters in step with the board.
    fn place_piece(&mut self, board: &mut Board, pos: u32, piece: Piece, nonce: u32)
        requires
            old(self).counts_match(old(board)@),
        ensures
            final(board)@ == old(board)@.insert(pos, (piece, nonce)),
            final(self).counts_match(final(board)@),
            final(self).row_size == old(self).row_size,
    {
        broadcast use vstd::std_specs::btree::group_btree_axioms;

        let ghost cells = board@;
        let ghost row_size = self.row_size;
        match board.get(&pos) {
            Some((old_piece, _)) => {
                let old_piece = *old_piece;
                self.remove_piece_threats(pos, old_piece);
                proof {
                    assert forall|kind: int, i: int|
                        0 <= kind < 4 && 0 <= i < self.counter(kind).len() implies #[trigger] self.counter(
                        kind,
                    )[i] == line_set(cells.remove(pos), row_size, kind, i).len() by {
                        lemma_line_set_remove(cells, row_size, kind, i, pos);
                        lemma_line_set_finite(cells, row_size, kind, i);
                        if on_board(row_size, pos) && line_piece(kind, old_piece) && line_index(
                            kind,
                            row_size,
                            pos,
                        ) == i {
                            assert(line_set(cells, row_size, kind, i).contains(pos));
                        }
                    }
                }
            },
            None => {
                assert(cells.remove(pos) == cells);
            },
        }
        let ghost rest = cells.remove(pos);
        proof {
            assert forall|kind: int|
                0 <= kind < 4 && on_board(row_size, pos) && line_piece(kind, piece) && 0
                    <= line_index(kind, row_size, pos) < self.counter(kind).len() implies #[trigger] self.counter(
                kind,
            )[line_index(kind, row_size, pos)] < u32::MAX by {
                lemma_line_set_small(rest, row_size, kind, line_index(kind, row_size, pos));
            }
        }
        board.insert(pos, (piece, nonce));
        self.add_piece_threats(pos, piece);
        proof {
            assert(board@ == rest.insert(pos, (piece, nonce)));
            assert forall|kind: int, i: int|
                0 <= kind < 4 && 0 <= i < self.counter(kind).len() implies #[trigger] self.counter(
                kind,
            )[i] == line_set(board@, row_size, kind, i).len() by {
                lemma_line_set_insert(rest, row_size, kind, i, pos, (piece, nonce));
            }
        }
    }

    /// Adds the nonces of the `kind` pieces found at each of `moves` away
    /// from the king's column and row, in the order of the moves.
    fn add_move_attackers(
        &self,
        board: &Board,
        king_x: u32,
        king_y: u32,
        moves: &[(i32, i32)],
        kind: Piece,
        threats: &mut Vec<u32>,
    )
        requires
            self.shaped(),
            king_x < self.row_size,
            king_y < self.row_size,
            forall|m: int|
                0 <= m < moves@.len() ==> -2 <= (#[trigger] moves@[m]).0 <= 2 && -2 <= moves@[m].1
                    <= 2,
            forall|a: int, b: int| 0 <= a < b < moves@.len() ==> moves@[a] != moves@[b],
        ensures
            final(threats)@ == old(threats)@ + move_scan(
                board@,
                self.row_size,
                king_x,
                king_y,
                kind,
                moves@,
            ).map_values(|q: u32| board@[q].1),
            move_scan(board@, self.row_size, king_x, king_y, kind, moves@).no_duplicates(),
            move_scan(board@, self.row_size, king_x, king_y, kind, moves@).to_set() == move_set(
                board@,
                self.row_size,
                king_x,
                king_y,
                kind,
                moves@,
            ),
    {
        broadcast use vstd::std_specs::btree::group_btree_axioms;

        let ghost row_size = self.row_size;
        let ghost cells = board@;
        let ghost mut ps: Seq<u32> = Seq::empty();
        let ghost base = threats@;
        let n = moves.len();
        let mut k: usize = 0;
        assert(ps.to_set() == move_set(cells, row_size, king_x, king_y, kind, moves@.take(0)));
        while k < n
            invariant
                n == moves@.len(),
                k <= n,
                self.shaped(),
                row_size == self.row_size,
                cells == board@,
                king_x < row_size,
                king_y < row_size,
                forall|m: int|
                    0 <= m < moves@.len() ==> -2 <= (#[trigger] moves@[m]).0 <= 2 && -2 <= moves@[m].1
                        <= 2,
                forall|a: int, b: int| 0 <= a < b < moves@.len() ==> moves@[a] != moves@[b],
                ps.no_duplicates(),
                ps.to_set() == move_set(cells, row_size, king_x, king_y, kind, moves@.take(k as int)),
                ps == move_scan(cells, row_size, king_x, king_y, kind, moves@.take(k as int)),
                threats@ == base + ps.map_values(|q: u32| cells[q].1),
            decreases n - k,
        {
            proof {
                assert(moves@.take(k + 1).drop_last() == moves@.take(k as int));
                assert(moves@.take(k + 1).last() == moves@[k as int]);
            }
            let (dx, dy) = moves[k];
            let x = king_x.wrapping_add_signed(dx);
            let y = king_y.wrapping_add_signed(dy);
            let ghost tx = king_x + dx;
            let ghost ty = king_y + dy;
            let ghost before = move_set(cells, row_size, king_x, king_y, kind, moves@.take(k as int));
            let ghost after = move_set(cells, row_size, king_x, king_y, kind, moves@.take(k + 1));
            assert((x < row_size && y < row_size) <==> (0 <= tx < row_size && 0 <= ty < row_size));
            if in_bounds(self.row_size, x, y) {
                let pos = xy_to_pos(self.row_size, x, y);
                proof {
                    lemma_square_of(row_size, tx, ty);
                    assert(!before.contains(pos)) by {
                        if before.contains(pos) {
                            let m = choose|m: int|
                                0 <= m < moves@.take(k as int).len() && col_of(row_size, pos)
                                    == king_x + (#[trigger] moves@.take(k as int)[m]).0 && row_of(
                                    row_size,
                                    pos,
                                ) == king_y + moves@.take(k as int)[m].1;
                            assert(moves@.take(k as int)[m] == moves@[m]);
                            assert(moves@[m] != moves@[k as int]);
                        }
                    }
                }
                match board.get(&pos) {
                    Some((piece, nonce)) => {
                        if *piece == kind {
                            threats.push(*nonce);
                            proof {
                                lemma_push_fresh(ps, pos);
                                let old_ps = ps;
                                ps = ps.push(pos);
                                assert(ps.map_values(|q: u32| cells[q].1) == old_ps.map_values(
                                    |q: u32| cells[q].1,
                                ).push(cells[pos].1));
                                assert(after == before.insert(pos)) by {
                                    lemma_move_set_step(cells, row_size, king_x, king_y, kind, moves@, k as int);
                                }
                            }
                        } else {
                            proof {
                                lemma_move_set_step(cells, row_size, king_x, king_y, kind, moves@, k as int);
                                assert(after == before);
                            }
                        }
                    },
                    None => {
                        proof {
                            lemma_move_set_step(cells, row_size, king_x, king_y, kind, moves@, k as int);
                            assert(after == before);
                        }
                    },
                }
            } else {
                proof {
                    lemma_move_set_step(cells, row_size, king_x, king_y, kind, moves@, k as int);
                    assert(after == before);
                }
            }
            k += 1;
        }
        assert(moves@.take(n as int) == moves@);
        assert(move_scan(cells, row_size, king_x, king_y, kind, moves@.take(0)) == Seq::<u32>::empty());
    }

    /// Adds the nonces of the pawns, knights and kings that check a king at
    /// column `king_x` and row `king_y`.
    fn add_point_attackers(&self, board: &Board, king_x: u32, king_y: u32, threats: &mut Vec<u32>)
        requires
            self.shaped(),
            king_x < self.row_size,
            king_y < self.row_size,
        ensures
            final(threats)@ == old(threats)@ + point_scan(
                board@,
                self.row_size,
                king_x,
                king_y,
            ).map_values(|q: u32| board@[q].1),
            point_scan(board@, self.row_size, king_x, king_y).no_duplicates(),
            point_scan(board@, self.row_size, king_x, king_y).to_set() == point_set(
                board@,
                self.row_size,
                king_x,
                king_y,
            ),
    {
        let ghost cells = board@;
        let ghost row_size = self.row_size;
        let ghost base = threats@;
        let pawns = pawn_moves();
        let knights = knight_moves();
        let kings = king_moves();
        assert(forall|m: int|
            0 <= m < pawns@.len() ==> -2 <= (#[trigger] pawns@[m]).0 <= 2 && -2 <= pawns@[m].1 <= 2);
        assert(forall|m: int|
            0 <= m < knights@.len() ==> -2 <= (#[trigger] knights@[m]).0 <= 2 && -2 <= knights@[m].1
                <= 2);
        assert(forall|m: int|
            0 <= m < kings@.len() ==> -2 <= (#[trigger] kings@[m]).0 <= 2 && -2 <= kings@[m].1 <= 2);
        assert(forall|a: int, b: int| 0 <= a < b < pawns@.len() ==> pawns@[a] != pawns@[b]);
        assert(forall|a: int, b: int| 0 <= a < b < knights@.len() ==> knights@[a] != knights@[b]);
        assert(forall|a: int, b: int| 0 <= a < b < kings@.len() ==> kings@[a] != kings@[b]);
        self.add_move_attackers(board, king_x, king_y, pawns.as_slice(), Piece::PAWN, threats);
        self.add_move_attackers(board, king_x, king_y, knights.as_slice(), Piece::KNIGHT, threats);
        self.add_move_attackers(board, king_x, king_y, kings.as_slice(), Piece::KING, threats);
        proof {
            let s1 = move_set(cells, row_size, king_x, king_y, Piece::PAWN, pawns@);
            let s2 = move_set(cells, row_size, king_x, king_y, Piece::KNIGHT, knights@);
            let s3 = move_set(cells, row_size, king_x, king_y, Piece::KING, kings@);
            let p1 = move_scan(cells, row_size, king_x, king_y, Piece::PAWN, pawns@);
            let p2 = move_scan(cells, row_size, king_x, king_y, Piece::KNIGHT, knights@);
            let p3 = move_scan(cells, row_size, king_x, king_y, Piece::KING, kings@);
            lemma_join(p1, p2, cells);
            lemma_join(p1 + p2, p3, cells);
            assert(point_set(cells, row_size, king_x, king_y) == s1.union(s2).union(s3));
            assert(point_scan(cells, row_size, king_x, king_y) == p1 + p2 + p3);
            assert(threats@ == base + (p1 + p2 + p3).map_values(|q: u32| cells[q].1));
        }
    }

    /// The squares found along line `idx` of a kind, away from coordinate
    /// `kc`: none when the line's counter is zero, whatever the board holds.
    spec fn line_found(&self, cells: Cells, kind: int, idx: int, kc: int) -> Seq<u32> {
        if 0 <= idx < self.counter(kind).len() && self.counter(kind)[idx] > 0 {
            line_scan(cells, self.row_size, kind, idx, kc, self.row_size as int)
        } else {
            Seq::empty()
        }
    }

    /// The squares found along the king's row, column, diagonal and
    /// anti-diagonal, in this order.
    spec fn sliding_scan(&self, cells: Cells, kx: u32, ky: u32) -> Seq<u32> {
        self.line_found(cells, 0, ky as int, kx as int) + self.line_found(
            cells,
            1,
            kx as int,
            ky as int,
        ) + self.line_found(cells, 2, kx + ky, kx as int) + self.line_found(
            cells,
            3,
            kx + self.row_size - 1 - ky,
            kx as int,
        )
    }

    /// With counters that match the board, a line is walked in full: a line
    /// whose counter is zero has nothing to find.
    proof fn lemma_found_full(&self, cells: Cells, kind: int, idx: int, kc: int)
        requires
            self.counts_match(cells),
            0 <= kind < 4,
            0 <= idx < self.counter(kind).len(),
        ensures
            self.line_found(cells, kind, idx, kc) == line_scan(
                cells,
                self.row_size,
                kind,
                idx,
                kc,
                self.row_size as int,
            ),
    {
        if self.counter(kind)[idx] == 0 {
            let n = self.row_size as int;
            lemma_scan_empty(cells, self.row_size, kind, idx, kc, n);
            lemma_line_scan_set(cells, self.row_size, kind, idx, kc, n);
            let w = line_scan(cells, self.row_size, kind, idx, kc, n);
            if w.len() > 0 {
                assert(w.to_set().contains(w[0]));
            }
            assert(w =~= Seq::<u32>::empty());
        }
    }

    /// A line yields at most one square per coordinate other than the king's.
    proof fn lemma_found_len(&self, cells: Cells, kind: int, idx: int, kc: int)
        requires
            self.shaped(),
            0 <= kc < self.row_size,
        ensures
            self.line_found(cells, kind, idx, kc).len() <= self.row_size - 1,
    {
        lemma_line_scan_len(cells, self.row_size, kind, idx, kc, self.row_size as int);
    }

    /// Adds the nonces of the castles, bishops and queens on the king's row,
    /// column, diagonal and anti-diagonal, in this order and each line by
    /// ascending coordinate, walking only the lines whose counter is not zero.
    #[verifier::spinoff_prover]
    #[verifier::rlimit(40)]
    fn add_sliding_piece_attackers(
        &self,
        board: &Board,
        king_pos: u32,
        king_x: u32,
        king_y: u32,
        threats: &mut Vec<u32>,
    )
        requires
            self.shaped(),
            king_x < self.row_size,
            king_y < self.row_size,
        ensures
            final(threats)@ == old(threats)@ + self.sliding_scan(board@, king_x, king_y).map_values(
                |q: u32| board@[q].1,
            ),
            self.sliding_scan(board@, king_x, king_y).no_duplicates(),
            self.sliding_scan(board@, king_x, king_y).to_set().subset_of(
                sliding_set(board@, self.row_size, king_x, king_y),
            ),
            self.counts_match(board@) ==> self.sliding_scan(board@, king_x, king_y).to_set()
                == sliding_set(board@, self.row_size, king_x, king_y),
            self.counts_match(board@) ==> self.sliding_scan(board@, king_x, king_y) == line_walk(
                board@,
                self.row_size,
                king_x,
                king_y,
            ),
            final(threats)@.len() <= old(threats)@.len() + 4 * (self.row_size - 1),
    {
        broadcast use vstd::std_specs::btree::group_btree_axioms;

        let ghost cells = board@;
        let ghost row_size = self.row_size;
        let ghost base = threats@;
        assert(self.counter(0) == self.rows@);
        assert(self.counter(1) == self.cols@);
        assert(self.counter(2) == self.diags@);
        assert(self.counter(3) == self.anti_diags@);

        // Along the king's row.
        let ghost mut ps0: Seq<u32> = Seq::empty();
        let ghost t0 = threats@;
        if king_y < self.rows.len() as u32 && self.rows[king_y as usize] > 0 {
            let mut x: u32 = 0;
            assert(ps0.to_set() == scan_set(cells, row_size, 0, king_y as int, king_x as int, 0));
            while x < self.row_size
                invariant
                    self.shaped(),
                    cells == board@,
                    row_size == self.row_size,
                    king_x < row_size,
                    king_y < row_size,
                    x <= row_size,
                    ps0.no_duplicates(),
                    ps0.to_set() == scan_set(cells, row_size, 0, king_y as int, king_x as int, x as int),
                    ps0 == line_scan(cells, row_size, 0, king_y as int, king_x as int, x as int),
                    threats@ == t0 + ps0.map_values(|q: u32| cells[q].1),
                decreases row_size - x,
            {
                proof {
                    lemma_scan_step(cells, row_size, 0, king_y as int, king_x as int, x as int);
                    lemma_square_of(row_size, x as int, king_y as int);
                }
                if x != king_x {
                    let pos = xy_to_pos(self.row_size, x, king_y);
                    match board.get(&pos) {
                        Some((piece, nonce)) => {
                            if *piece == Piece::CASTLE || *piece == Piece::QUEEN {
                                threats.push(*nonce);
                                proof {
                                    lemma_push_fresh(ps0, pos);
                                    ps0 = ps0.push(pos);
                                }
                            }
                        },
                        None => {},
                    }
                }
                x += 1;
            }
        } else {
            proof {
                if self.counts_match(cells) {
                    lemma_scan_empty(cells, row_size, 0, king_y as int, king_x as int, row_size as int);
                }
            }
        }

        // Along the king's column.
        let ghost mut ps1: Seq<u32> = Seq::empty();
        let ghost t1 = threats@;
        if king_x < self.cols.len() as u32 && self.cols[king_x as usize] > 0 {
            let mut y: u32 = 0;
            assert(ps1.to_set() == scan_set(cells, row_size, 1, king_x as int, king_y as int, 0));
            while y < self.row_size
                invariant
                    self.shaped(),
                    cells == board@,
                    row_size == self.row_size,
                    king_x < row_size,
                    king_y < row_size,
                    y <= row_size,
                    ps1.no_duplicates(),
                    ps1.to_set() == scan_set(cells, row_size, 1, king_x as int, king_y as int, y as int),
                    ps1 == line_scan(cells, row_size, 1, king_x as int, king_y as int, y as int),
                    threats@ == t1 + ps1.map_values(|q: u32| cells[q].1),
                decreases row_size - y,
            {
                proof {
                    lemma_scan_step(cells, row_size, 1, king_x as int, king_y as int, y as int);
                    lemma_square_of(row_size, king_x as int, y as int);
                }
                if y != king_y {
                    let pos = xy_to_pos(self.row_size, king_x, y);
                    match board.get(&pos) {
                        Some((piece, nonce)) => {
                            if *piece == Piece::CASTLE || *piece == Piece::QUEEN {
                                threats.push(*nonce);
                                proof {
                                    lemma_push_fresh(ps1, pos);
                                    ps1 = ps1.push(pos);
                                }
                            }
                        },
                        None => {},
                    }
                }
                y += 1;
            }
        } else {
            proof {
                if self.counts_match(cells) {
                    lemma_scan_empty(cells, row_size, 1, king_x as int, king_y as int, row_size as int);
                }
            }
        }

        // Along the king's diagonal.
        let ghost mut ps2: Seq<u32> = Seq::empty();
        let ghost t2 = threats@;
        let diag = get_diagonal(king_x, king_y);
        if diag < self.diags.len() as u32 && self.diags[diag as usize] > 0 {
            let mut x: u32 = 0;
            assert(ps2.to_set() == scan_set(cells, row_size, 2, diag as int, king_x as int, 0));
            while x < self.row_size
                invariant
                    self.shaped(),
                    cells == board@,
                    row_size == self.row_size,
                    king_x < row_size,
                    king_y < row_size,
                    diag == king_x + king_y,
                    x <= row_size,
                    ps2.no_duplicates(),
                    ps2.to_set() == scan_set(cells, row_size, 2, diag as int, king_x as int, x as int),
                    ps2 == line_scan(cells, row_size, 2, diag as int, king_x as int, x as int),
                    threats@ == t2 + ps2.map_values(|q: u32| cells[q].1),
                decreases row_size - x,
            {
                proof {
                    lemma_scan_step(cells, row_size, 2, diag as int, king_x as int, x as int);
                }
                if x != king_x {
                    let y = diag.wrapping_sub(x);
                    if y < self.row_size {
                        proof {
                            lemma_square_of(row_size, x as int, y as int);
                        }
                        let pos = xy_to_pos(self.row_size, x, y);
                        match board.get(&pos) {
                            Some((piece, nonce)) => {
                                if *piece == Piece::BISHOP || *piece == Piece::QUEEN {
                                    threats.push(*nonce);
                                    proof {
                                        lemma_push_fresh(ps2, pos);
                                        ps2 = ps2.push(pos);
                                    }
                                }
                            },
                            None => {},
                        }
                    }
                }
                x += 1;
            }
        } else {
            proof {
                if self.counts_match(cells) {
                    lemma_scan_empty(cells, row_size, 2, diag as int, king_x as int, row_size as int);
                }
            }
        }

        // Along the king's anti-diagonal.
        let ghost mut ps3: Seq<u32> = Seq::empty();
        let ghost t3 = threats@;
        let anti_diag = get_anti_diagonal(king_x, king_y, self.row_size);
        if anti_diag < self.anti_diags.len() as u32 && self.anti_diags[anti_diag as usize] > 0 {
            let mut x: u32 = 0;
            assert(ps3.to_set() == scan_set(cells, row_size, 3, anti_diag as int, king_x as int, 0));
            while x < self.row_size
                invariant
                    self.shaped(),
                    cells == board@,
                    row_size == self.row_size,
                    king_x < row_size,
                    king_y < row_size,
                    anti_diag == king_x + row_size - 1 - king_y,
                    x <= row_size,
                    ps3.no_duplicates(),
                    ps3.to_set() == scan_set(
                        cells,
                        row_size,
                        3,
                        anti_diag as int,
                        king_x as int,
                        x as int,
                    ),
                    ps3 == line_scan(cells, row_size, 3, anti_diag as int, king_x as int, x as int),
                    threats@ == t3 + ps3.map_values(|q: u32| cells[q].1),
                decreases row_size - x,
            {
                proof {
                    lemma_scan_step(cells, row_size, 3, anti_diag as int, king_x as int, x as int);
                }
                if x != king_x {
                    match get_y_on_anti_diagonal(x, anti_diag, self.row_size) {
                        Some(y) => {
                            proof {
                                lemma_square_of(row_size, x as int, y as int);
                            }
                            let pos = xy_to_pos(self.row_size, x, y);
                            match board.get(&pos) {
                                Some((piece, nonce)) => {
                                    if *piece == Piece::BISHOP || *piece == Piece::QUEEN {
                                        threats.push(*nonce);
                                        proof {
                                            lemma_push_fresh(ps3, pos);
                                            ps3 = ps3.push(pos);
                                        }
                                    }
                                },
                                None => {},
                            }
                        },
                        None => {},
                    }
                }
                x += 1;
            }
        } else {
            proof {
                if self.counts_match(cells) {
                    lemma_scan_empty(cells, row_size, 3, anti_diag as int, king_x as int, row_size as int);
                }
            }
        }
        proof {
            let s0 = scan_set(cells, row_size, 0, king_y as int, king_x as int, row_size as int);
            let s1 = scan_set(cells, row_size, 1, king_x as int, king_y as int, row_size as int);
            let s2 = scan_set(cells, row_size, 2, king_x + king_y, king_x as int, row_size as int);
            let s3 = scan_set(
                cells,
                row_size,
                3,
                king_x + row_size - 1 - king_y,
                king_x as int,
                row_size as int,
            );
            assert(ps0 == self.line_found(cells, 0, king_y as int, king_x as int));
            assert(ps1 == self.line_found(cells, 1, king_x as int, king_y as int));
            assert(ps2 == self.line_found(cells, 2, king_x + king_y, king_x as int));
            assert(ps3 == self.line_found(cells, 3, king_x + row_size - 1 - king_y, king_x as int));
            assert(ps0.to_set().subset_of(s0));
            assert(ps1.to_set().subset_of(s1));
            assert(ps2.to_set().subset_of(s2));
            assert(ps3.to_set().subset_of(s3));
            assert(s0.disjoint(s1));
            lemma_join(ps0, ps1, cells);
            assert(s0.union(s1).disjoint(s2));
            lemma_join(ps0 + ps1, ps2, cells);
            assert(s0.union(s1).union(s2).disjoint(s3));
            lemma_join(ps0 + ps1 + ps2, ps3, cells);
            assert(self.sliding_scan(cells, king_x, king_y) == ps0 + ps1 + ps2 + ps3);
            assert(threats@ == base + (ps0 + ps1 + ps2 + ps3).map_values(|q: u32| cells[q].1));
            self.lemma_found_len(cells, 0, king_y as int, king_x as int);
            self.lemma_found_len(cells, 1, king_x as int, king_y as int);
            self.lemma_found_len(cells, 2, king_x + king_y, king_x as int);
            self.lemma_found_len(cells, 3, king_x + row_size - 1 - king_y, king_x as int);
            if self.counts_match(cells) {
                self.lemma_found_full(cells, 0, king_y as int, king_x as int);
                self.lemma_found_full(cells, 1, king_x as int, king_y as int);
                self.lemma_found_full(cells, 2, king_x + king_y, king_x as int);
                self.lemma_found_full(cells, 3, king_x + row_size - 1 - king_y, king_x as int);
            }
        }
    }

    /// The nonces of the pieces that check a king on `king_pos`, in the order
    /// their squares are found, each square once.
    fn calculate_threats(&self, board: &Board, king_pos: u32) -> (threats: Vec<u32>)
        requires
            self.counts_match(board@),
        ensures
            threats@ == attack_scan(board@, self.row_size, king_pos).map_values(|q: u32| board@[q].1),
            attack_scan(board@, self.row_size, king_pos).no_duplicates(),
            attack_scan(board@, self.row_size, king_pos).to_set() == attackers(
                board@,
                self.row_size,
                king_pos,
            ),
            threats@.len() == attackers(board@, self.row_size, king_pos).len(),
            threats@.to_set() == attacker_nonces(board@, self.row_size, king_pos),
    {
        let ghost cells = board@;
        let ghost row_size = self.row_size;
        let (king_x, king_y) = pos_to_xy(self.row_size, king_pos);
        let mut threats = Vec::new();

        if king_x >= self.row_size || king_y >= self.row_size {
            proof {
                assert(attackers(cells, row_size, king_pos) =~= Set::<u32>::empty());
                assert(threats@.to_set() =~= Set::<u32>::empty());
                assert(attacker_nonces(cells, row_size, king_pos) =~= Set::<u32>::empty());
                assert(attack_scan(cells, row_size, king_pos) == Seq::<u32>::empty());
                assert(Seq::<u32>::empty().to_set() =~= Set::<u32>::empty());
                assert(threats@ == Seq::<u32>::empty().map_values(|q: u32| cells[q].1));
            }
            return threats;
        }
        self.add_point_attackers(board, king_x, king_y, &mut threats);
        self.add_sliding_piece_attackers(board, king_pos, king_x, king_y, &mut threats);
        proof {
            let sp = point_set(cells, row_size, king_x, king_y);
            let ss = sliding_set(cells, row_size, king_x, king_y);
            let p1 = point_scan(cells, row_size, king_x, king_y);
            let p2 = self.sliding_scan(cells, king_x, king_y);
            assert(p2 == line_walk(cells, row_size, king_x, king_y));
            assert(sp.disjoint(ss));
            lemma_join(p1, p2, cells);
            let ps = p1 + p2;
            assert(ps == attack_scan(cells, row_size, king_pos));
            lemma_attackers_split(cells, row_size, king_pos);
            assert(ps.to_set() == attackers(cells, row_size, king_pos));
            assert(threats@ == ps.map_values(|q: u32| cells[q].1));
            ps.unique_seq_to_set();
            assert forall|t: u32| threats@.to_set().contains(t) <==> attacker_nonces(
                cells,
                row_size,
                king_pos,
            ).contains(t) by {
                if threats@.contains(t) {
                    let j = choose|j: int| 0 <= j < threats@.len() && threats@[j] == t;
                    assert(ps.to_set().contains(ps[j]));
                }
                if attacker_nonces(cells, row_size, king_pos).contains(t) {
                    let q = choose|q: u32|
                        attackers(cells, row_size, king_pos).contains(q) && t == cells[q].1;
                    assert(ps.contains(q));
                    let j = choose|j: int| 0 <= j < ps.len() && ps[j] == q;
                    assert(threats@[j] == t);
                }
            }
            assert(threats@.to_set() =~= attacker_nonces(cells, row_size, king_pos));
        }
        threats
    }
}

/// Appending an element that a sequence lacks keeps it free of repeats, and
/// adds the element to its set.
proof fn lemma_push_fresh(s: Seq<u32>, x: u32)
    requires
        s.no_duplicates(),
        !s.to_set().contains(x),
    ensures
        s.push(x).no_duplicates(),
        s.push(x).to_set() == s.to_set().insert(x),
{
    let t = s.push(x);
    assert forall|a: int, b: int| 0 <= a < t.len() && 0 <= b < t.len() && a != b implies t[a]
        != t[b] by {
        if a < s.len() && b < s.len() {
            assert(t[a] == s[a] && t[b] == s[b]);
        } else if a < s.len() {
            assert(t[a] == s[a]);
            assert(s.contains(t[a]));
        } else if b < s.len() {
            assert(t[b] == s[b]);
            assert(s.contains(t[b]));
        }
    }
    assert forall|y: u32| t.to_set().contains(y) <==> s.to_set().contains(y) || y == x by {
        if t.contains(y) {
            let j = choose|j: int| 0 <= j < t.len() && t[j] == y;
            if j < s.len() {
                assert(s[j] == y);
            }
        }
        if s.contains(y) {
            let j = choose|j: int| 0 <= j < s.len() && s[j] == y;
            assert(t[j] == y);
        }
        if y == x {
            assert(t[s.len() as int] == y);
        }
    }
    assert(t.to_set() =~= s.to_set().insert(x));
}

/// The squares found within the first `k + 1` moves are those within the
/// first `k`, and the square of move `k` when it holds a `kind` piece.
proof fn lemma_move_set_step(
    cells: Cells,
    row_size: u32,
    kx: u32,
    ky: u32,
    kind: Piece,
    moves: Seq<(i32, i32)>,
    k: int,
)
    requires
        0 <= k < moves.len(),
        kx < row_size <= 65535,
        ky < row_size,
    ensures
        ({
            let tx = kx + moves[k].0;
            let ty = ky + moves[k].1;
            let before = move_set(cells, row_size, kx, ky, kind, moves.take(k));
            let after = move_set(cells, row_size, kx, ky, kind, moves.take(k + 1));
            if 0 <= tx < row_size && 0 <= ty < row_size && cells.contains_key(
                (ty * row_size + tx) as u32,
            ) && cells[(ty * row_size + tx) as u32].0 == kind {
                after == before.insert((ty * row_size + tx) as u32)
            } else {
                after == before
            }
        }),
{
    let tx = kx + moves[k].0;
    let ty = ky + moves[k].1;
    let before = move_set(cells, row_size, kx, ky, kind, moves.take(k));
    let after = move_set(cells, row_size, kx, ky, kind, moves.take(k + 1));
    let pos = (ty * row_size + tx) as u32;
    let in_range = 0 <= tx < row_size && 0 <= ty < row_size;
    if in_range {
        lemma_square_of(row_size, tx, ty);
    }
    assert forall|q: u32| after.contains(q) <==> before.contains(q) || (in_range && q == pos
        && cells.contains_key(pos) && cells[pos].0 == kind) by {
        if after.contains(q) {
            let m = choose|m: int|
                0 <= m < moves.take(k + 1).len() && col_of(row_size, q) == kx + (
                #[trigger] moves.take(k + 1)[m]).0 && row_of(row_size, q) == ky + moves.take(
                    k + 1,
                )[m].1;
            if m < k {
                assert(moves.take(k)[m] == moves.take(k + 1)[m]);
            } else {
                assert(moves.take(k + 1)[m] == moves[k]);
                vstd::arithmetic::div_mod::lemma_fundamental_div_mod(q as int, row_size as int);
                assert(in_range);
            }
        }
        if before.contains(q) {
            let m = choose|m: int|
                0 <= m < moves.take(k).len() && col_of(row_size, q) == kx + (
                #[trigger] moves.take(k)[m]).0 && row_of(row_size, q) == ky + moves.take(k)[m].1;
            assert(moves.take(k)[m] == moves.take(k + 1)[m]);
        }
        if in_range && q == pos && cells.contains_key(pos) && cells[pos].0 == kind {
            assert(moves.take(k + 1)[k] == moves[k]);
        }
    }
    if in_range && cells.contains_key(pos) && cells[pos].0 == kind {
        assert(after =~= before.insert(pos));
    } else {
        assert(after =~= before);
    }
}

/// Whether a piece on `piece_pos` checks a king on `king_pos`.
fn is_checking(row_size: u32, king_pos: u32, piece_pos: u32, piece: Piece) -> (r: bool)
    requires
        row_size > 0,
        piece == Piece::PAWN && king_pos != piece_pos ==> piece_pos / row_size < u32::MAX,
    ensures
        r == checks(row_size, king_pos, piece_pos, piece),
{
    proof {
        vstd::arithmetic::div_mod::lemma_fundamental_div_mod(king_pos as int, row_size as int);
        vstd::arithmetic::div_mod::lemma_fundamental_div_mod(piece_pos as int, row_size as int);
        lemma_dist_product(row_size, king_pos, piece_pos);
    }
    if king_pos == piece_pos {
        return false;
    }
    let (king_x, king_y) = pos_to_xy(row_size, king_pos);
    let (piece_x, piece_y) = pos_to_xy(row_size, piece_pos);

    let dx = if king_x >= piece_x {
        king_x - piece_x
    } else {
        piece_x - king_x
    };
    let dy = if king_y >= piece_y {
        king_y - piece_y
    } else {
        piece_y - king_y
    };

    match piece {
        Piece::PAWN => piece_y + 1 == king_y && dx == 1,
        Piece::CASTLE => dx == 0 || dy == 0,
        Piece::QUEEN => dx == 0 || dy == 0 || dx == dy,
        Piece::BISHOP => dx == dy,
        Piece::KNIGHT => dx * dy == 2,
        Piece::KING => dx <= 1 && dy <= 1,
    }
}

/// The state of a search: the rules, the board, the counters of sliding
/// pieces, the last king and the nonces of the pieces counted as checking it.
pub struct Search {
    params: Params,
    row_size: u32,
    board: Board,
    tracker: ThreatTracker,
    last_king: Option<(u32, u32)>,
    threats: Vec<u32>,
}

impl Search {
    /// The rules of this search.
    pub closed spec fn params(&self) -> Params {
        self.params
    }

    /// The board.
    pub closed spec fn cells(&self) -> Cells {
        self.board@
    }

    /// The square and nonce of the last king placed.
    pub closed spec fn king(&self) -> Option<(u32, u32)> {
        self.last_king
    }

    /// How many threats are counted, and their nonces.
    pub closed spec fn counted(&self) -> (nat, Set<u32>) {
        (self.threats@.len(), self.threats@.to_set())
    }

    /// The row size is the board's and the counters match the board.
    pub closed spec fn wf(&self) -> bool {
        &&& self.params.valid()
        &&& self.row_size == self.params.row_size()
        &&& is_floor_sqrt(self.row_size, self.params.board_size)
        &&& self.tracker.row_size == self.row_size
        &&& self.tracker.counts_match(self.board@)
    }

    /// A search with an empty board and no threats.
    pub fn new(params: Params) -> (s: Self)
        requires
            params.valid(),
        ensures
            s.wf(),
            s.params() == params,
            s.cells() == Cells::empty(),
            s.king() is None,
            s.counted() == (0nat, Set::<u32>::empty()),
    {
        let tracker = ThreatTracker::new(params.board_size);
        let row_size = tracker.row_size;
        proof {
            lemma_floor_sqrt(row_size, params.board_size);
        }
        let s = Search {
            params,
            row_size,
            board: BTreeMap::new(),
            tracker,
            last_king: None,
            threats: Vec::new(),
        };
        assert(s.threats@.to_set() =~= Set::<u32>::empty());
        s
    }

    /// Places the piece that nonce `j` draws from hash value `e`, before the
    /// search starts counting threats.
    pub fn place(&mut self, j: u32, e: u64)
        requires
            old(self).wf(),
        ensures
            final(self).wf(),
            final(self).params() == old(self).params(),
            final(self).cells() == old(self).cells().insert(
                crate::piece::spec_draw_pos(e, old(self).params().board_size),
                (crate::piece::spec_draw_piece(e), j),
            ),
            final(self).king() == if crate::piece::spec_draw_piece(e) == Piece::KING {
                Some((crate::piece::spec_draw_pos(e, old(self).params().board_size), j))
            } else {
                old(self).king()
            },
            final(self).counted() == old(self).counted(),
    {
        let (p, pos) = draw(e, self.params.board_size);
        self.tracker.place_piece(&mut self.board, pos, p, j);
        if p == Piece::KING {
            self.last_king = Some((pos, j));
        }
    }

    /// Counts the threats to the last king on the board replayed so far.
    pub fn begin(&mut self)
        requires
            old(self).wf(),
        ensures
            final(self).wf(),
            final(self).params() == old(self).params(),
            final(self).cells() == old(self).cells(),
            final(self).king() == old(self).king(),
            final(self).counted() == match old(self).king() {
                Some((king_pos, _)) => summary(old(self).cells(), old(self).params().row_size(), king_pos),
                None => old(self).counted(),
            },
    {
        match self.last_king {
            Some((king_pos, _)) => {
                self.threats = self.tracker.calculate_threats(&self.board, king_pos);
            },
            None => {},
        }
    }

    /// Places the piece that nonce `i` draws from hash value `e` and counts
    /// it as a threat if it checks the last king, or counts the threats to it
    /// if it is a king; answers once enough threats are counted, and then
    /// counts the king among them.
    pub fn step(&mut self, i: u32, e: u64) -> (r: Option<(u32, u32)>)
        requires
            old(self).wf(),
        ensures
            final(self).params() == old(self).params(),
            ({
                let piece = crate::piece::spec_draw_piece(e);
                let pos = crate::piece::spec_draw_pos(e, old(self).params().board_size);
                let cells = old(self).cells().insert(pos, (piece, i));
                let king = if piece == Piece::KING {
                    Some((pos, i))
                } else {
                    old(self).king()
                };
                let t = next_threats(
                    old(self).counted(),
                    old(self).king(),
                    cells,
                    old(self).params().row_size(),
                    i,
                    piece,
                    pos,
                );
                &&& final(self).wf()
                &&& final(self).cells() == cells
                &&& final(self).king() == king
                &&& r == answer_of(t.0, t.1, king, i, old(self).params().checks_needed)
                &&& r is None ==> final(self).counted() == t
                &&& r is Some ==> final(self).counted() == (
                    if t.1.contains(king.unwrap().1) {
                        t.0
                    } else {
                        t.0 + 1
                    },
                    t.1.insert(king.unwrap().1),
                )
            }),
    {
        let row_size = self.row_size;
        proof {
            lemma_floor_sqrt(row_size, self.params.board_size);
        }
        let (p, pos) = draw(e, self.params.board_size);
        let ghost old_threats = self.threats@;
        self.tracker.place_piece(&mut self.board, pos, p, i);
        if p == Piece::KING {
            self.last_king = Some((pos, i));
            self.threats = self.tracker.calculate_threats(&self.board, pos);
        } else {
            match self.last_king {
                Some((king_pos, _)) => {
                    proof {
                        assert(pos / row_size <= pos) by (nonlinear_arith)
                            requires
                                row_size > 0,
                        ;
                    }
                    if is_checking(row_size, king_pos, pos, p) {
                        self.threats.push(i);
                        proof {
                            lemma_push_to_set(old_threats, i);
                        }
                    }
                },
                None => {},
            }
        }
        match self.last_king {
            Some((_, last_king_nonce)) => {
                if self.threats.len() >= self.params.checks_needed as usize {
                    let ghost listed = self.threats@;
                    if !vec_contains(&self.threats, last_king_nonce) {
                        self.threats.push(last_king_nonce);
                        assert(self.threats@[listed.len() as int] == last_king_nonce);
                        proof {
                            lemma_push_to_set(listed, last_king_nonce);
                        }
                    } else {
                        assert(listed.to_set().insert(last_king_nonce) =~= listed.to_set());
                    }
                    assert(forall|j: int| 0 <= j < listed.len() ==> self.threats@[j] == listed[j]);
                    let min_threat = vec_min(&self.threats);
                    proof {
                        assert(is_least_of(min_threat, listed.to_set(), last_king_nonce)) by {
                            let j = choose|j: int|
                                0 <= j < self.threats@.len() && self.threats@[j] == min_threat;
                            if min_threat != last_king_nonce {
                                assert(j < listed.len());
                                assert(listed.contains(min_threat));
                            }
                            assert(self.threats@.contains(last_king_nonce));
                            assert forall|t: u32| listed.to_set().contains(t) implies min_threat
                                <= t by {
                                let k = choose|k: int| 0 <= k < listed.len() && listed[k] == t;
                                assert(self.threats@[k] == listed[k]);
                            }
                        }
                        lemma_least_of_unique(min_threat, listed.to_set(), last_king_nonce);
                    }
                    return Some((min_threat, i));
                }
            },
            None => {},
        }
        None
    }
}

/// Replays the draws of the nonces below `start`, counts the threats to the
/// last king they leave, then searches the draws from `start` below the
/// game's limit of tries for the first one after which enough threats are
/// counted; answers the least nonce among the last king and its threats, and
/// the nonce of that draw.
pub fn solve(starting_hash: &[u8], start: u32) -> (r: Option<(u32, u32)>)
    ensures
        r == spec_tracked_search(starting_hash@, start, game_params()),
{
    let params = read_params();
    let mut search = Search::new(params);
    let ghost h = starting_hash@;

    let mut j: u32 = 0;
    while j < start
        invariant
            search.wf(),
            search.params() == params,
            params == game_params(),
            h == starting_hash@,
            j <= start,
            search.cells() == cells_upto(h, j as int, params.board_size),
            search.king() == king_upto(h, j as int, params.board_size),
            search.counted() == (0nat, Set::<u32>::empty()),
        decreases start - j,
    {
        let e = hash(starting_hash, j);
        search.place(j, e);
        proof {
            let next = j + 1;
            assert(e == spec_hash(h, j));
            assert(((next - 1) as u32) == j);
            assert(cells_upto(h, next, params.board_size) == cells_upto(h, j as int, params.board_size).insert(
                crate::piece::spec_draw_pos(e, params.board_size),
                (crate::piece::spec_draw_piece(e), j),
            ));
        }
        j += 1;
    }
    search.begin();

    let max = params.max_tries;
    let mut i = start;
    while i < max
        invariant
            search.wf(),
            search.params() == params,
            params == game_params(),
            h == starting_hash@,
            max == params.max_tries,
            start <= i,
            search.cells() == cells_upto(h, i as int, params.board_size),
            search.king() == king_upto(h, i as int, params.board_size),
            search.counted() == threats_upto(h, start, i as int, params),
            tracked_search_from(h, start, start as int, params) == tracked_search_from(
                h,
                start,
                i as int,
                params,
            ),
        decreases max - i,
    {
        let e = hash(starting_hash, i);
        let r = search.step(i, e);
        proof {
            let next = i + 1;
            assert(e == spec_hash(h, i));
            assert(((next - 1) as u32) == i);
            assert(cells_upto(h, next, params.board_size) == cells_upto(h, i as int, params.board_size).insert(
                crate::piece::spec_draw_pos(e, params.board_size),
                (crate::piece::spec_draw_piece(e), i),
            ));
            assert(threats_upto(h, start, next, params) == next_threats(
                threats_upto(h, start, i as int, params),
                king_upto(h, i as int, params.board_size),
                cells_upto(h, next, params.board_size),
                params.row_size(),
                i,
                crate::piece::spec_draw_piece(e),
                crate::piece::spec_draw_pos(e, params.board_size),
            ));
        }
        if r.is_some() {
            return r;
        }
        i += 1;
    }
    None
}

/// The contract's entry point.
pub struct Storage {}

impl Storage {
    /// Runs `solve` on a 32-byte hash; no answer is refused with an empty
    /// message.
    pub fn prove(&self, hash: [u8; 32], from: u32) -> (r: Result<(u32, u32), Vec<u8>>)
        ensures
            match spec_tracked_search(hash@, from, game_params()) {
                Some(result) => r == Ok::<(u32, u32), Vec<u8>>(result),
                None => r matches Err(msg) && msg@.len() == 0,
            },
    {
        match solve(hash.as_slice(), from) {
            Some(result) => Ok(result),
            None => Err(Vec::new()),
        }
    }
}

} // verus!
