//! What the search that keeps its board as a map from squares computes: the
//! lines of the board and how many sliding pieces lie on each, which pieces
//! attack a king, and the threats that the search counts.

use vstd::prelude::*;
use vstd::set_lib::lemma_set_subset_finite;

use crate::geometry::{checks, col_of, dist, row_of};
use crate::external::spec_hash;
use crate::model::{on_board, Params};
use crate::piece::{spec_draw_piece, spec_draw_pos, Piece};

verus! {

/// The board: each occupied square with its piece and the nonce that drew it.
pub type Cells = Map<u32, (Piece, u32)>;

/// A piece that moves along rows and columns.
pub open spec fn straight(p: Piece) -> bool {
    p == Piece::CASTLE || p == Piece::QUEEN
}

/// A piece that moves along diagonals.
pub open spec fn diagonal(p: Piece) -> bool {
    p == Piece::BISHOP || p == Piece::QUEEN
}

/// The kinds of line a tracker counts: 0 rows, 1 columns, 2 diagonals (the
/// sum of column and row is fixed), 3 anti-diagonals (their difference is).
pub open spec fn line_index(kind: int, row_size: u32, q: u32) -> int {
    let x = col_of(row_size, q) as int;
    let y = row_of(row_size, q) as int;
    if kind == 0 {
        y
    } else if kind == 1 {
        x
    } else if kind == 2 {
        x + y
    } else {
        x + row_size - 1 - y
    }
}

/// Whether a piece is counted on lines of a kind.
pub open spec fn line_piece(kind: int, p: Piece) -> bool {
    if kind < 2 {
        straight(p)
    } else {
        diagonal(p)
    }
}

/// The squares of the square part of the board on line `idx` of a kind that
/// hold a piece counted there.
pub open spec fn line_set(cells: Cells, row_size: u32, kind: int, idx: int) -> Set<u32> {
    Set::new(
        |q: u32|
            cells.contains_key(q) && on_board(row_size, q) && line_piece(kind, cells[q].0)
                && line_index(kind, row_size, q) == idx,
    )
}

/// A line set is finite on a finite board.
pub proof fn lemma_line_set_finite(cells: Cells, row_size: u32, kind: int, idx: int)
    requires
        cells.dom().finite(),
    ensures
        line_set(cells, row_size, kind, idx).finite(),
        line_set(cells, row_size, kind, idx).subset_of(cells.dom()),
{
    lemma_set_subset_finite(cells.dom(), line_set(cells, row_size, kind, idx));
}

/// Placing a piece on an empty square adds that square to the lines through
/// it that count the piece, and changes no other line.
pub proof fn lemma_line_set_insert(
    cells: Cells,
    row_size: u32,
    kind: int,
    idx: int,
    pos: u32,
    v: (Piece, u32),
)
    requires
        cells.dom().finite(),
        !cells.contains_key(pos),
    ensures
        line_set(cells.insert(pos, v), row_size, kind, idx).len() == line_set(
            cells,
            row_size,
            kind,
            idx,
        ).len() + if on_board(row_size, pos) && line_piece(kind, v.0) && line_index(
            kind,
            row_size,
            pos,
        ) == idx {
            1int
        } else {
            0int
        },
{
    let before = line_set(cells, row_size, kind, idx);
    let after = line_set(cells.insert(pos, v), row_size, kind, idx);
    lemma_line_set_finite(cells, row_size, kind, idx);
    if on_board(row_size, pos) && line_piece(kind, v.0) && line_index(kind, row_size, pos) == idx {
        assert(after == before.insert(pos));
        assert(!before.contains(pos));
    } else {
        assert(after == before);
    }
}

/// Taking a piece off a square takes that square off the lines through it
/// that count the piece, and changes no other line.
pub proof fn lemma_line_set_remove(cells: Cells, row_size: u32, kind: int, idx: int, pos: u32)
    requires
        cells.dom().finite(),
        cells.contains_key(pos),
    ensures
        line_set(cells.remove(pos), row_size, kind, idx).len() == line_set(
            cells,
            row_size,
            kind,
            idx,
        ).len() - if on_board(row_size, pos) && line_piece(kind, cells[pos].0) && line_index(
            kind,
            row_size,
            pos,
        ) == idx {
            1int
        } else {
            0int
        },
{
    let before = line_set(cells, row_size, kind, idx);
    let after = line_set(cells.remove(pos), row_size, kind, idx);
    lemma_line_set_finite(cells, row_size, kind, idx);
    if on_board(row_size, pos) && line_piece(kind, cells[pos].0) && line_index(kind, row_size, pos)
        == idx {
        assert(after == before.remove(pos));
        assert(before.contains(pos));
    } else {
        assert(after == before);
    }
}

/// A line holds at most as many squares as a row of the board has.
pub proof fn lemma_line_set_small(cells: Cells, row_size: u32, kind: int, idx: int)
    requires
        cells.dom().finite(),
        0 < row_size <= 65535,
    ensures
        line_set(cells, row_size, kind, idx).len() <= row_size,
{
    let s = line_set(cells, row_size, kind, idx);
    lemma_line_set_finite(cells, row_size, kind, idx);
    // Each square of the line is fixed by its column, or, on a column, by
    // its row.
    let key = |q: u32|
        if kind == 1 {
            row_of(row_size, q)
        } else {
            col_of(row_size, q)
        };
    let cols = Set::new(|c: u32| c < row_size);
    assert forall|q1: u32, q2: u32| s.contains(q1) && s.contains(q2) && #[trigger] key(q1) == #[trigger] key(
        q2,
    ) implies q1 == q2 by {
        vstd::arithmetic::div_mod::lemma_fundamental_div_mod(q1 as int, row_size as int);
        vstd::arithmetic::div_mod::lemma_fundamental_div_mod(q2 as int, row_size as int);
    }
    assert(s.map(key).subset_of(cols));
    vstd::set_lib::lemma_map_size(s, s.map(key), key);
    lemma_cols_len(row_size);
    vstd::set_lib::lemma_len_subset(s.map(key), cols);
}

/// There are `row_size` coordinates below `row_size`.
proof fn lemma_cols_len(row_size: u32)
    ensures
        Set::new(|c: u32| c < row_size).finite(),
        Set::new(|c: u32| c < row_size).len() == row_size,
    decreases row_size,
{
    let s = Set::new(|c: u32| c < row_size);
    if row_size == 0 {
        assert(s == Set::<u32>::empty());
    } else {
        lemma_cols_len((row_size - 1) as u32);
        let t = Set::new(|c: u32| c < (row_size - 1) as u32);
        assert(s == t.insert((row_size - 1) as u32));
    }
}

/// The squares holding a piece that checks a king on `king_pos`: none when
/// the king is off the square part of the board, and otherwise the squares of
/// that part whose piece checks the king.
pub open spec fn attackers(cells: Cells, row_size: u32, king_pos: u32) -> Set<u32> {
    Set::new(
        |q: u32|
            on_board(row_size, king_pos) && cells.contains_key(q) && on_board(row_size, q) && checks(
                row_size,
                king_pos,
                q,
                cells[q].0,
            ),
    )
}

/// The nonces of the pieces that check a king on `king_pos`.
pub open spec fn attacker_nonces(cells: Cells, row_size: u32, king_pos: u32) -> Set<u32> {
    attackers(cells, row_size, king_pos).map(|q: u32| cells[q].1)
}

/// The squares holding a `kind` piece at one of the `moves` away from the
/// square at column `kx` and row `ky`.
pub open spec fn move_set(
    cells: Cells,
    row_size: u32,
    kx: u32,
    ky: u32,
    kind: Piece,
    moves: Seq<(i32, i32)>,
) -> Set<u32> {
    Set::new(
        |q: u32|
            cells.contains_key(q) && on_board(row_size, q) && cells[q].0 == kind && exists|m: int|
                0 <= m < moves.len() && col_of(row_size, q) == kx + (#[trigger] moves[m]).0 && row_of(
                    row_size,
                    q,
                ) == ky + moves[m].1,
    )
}

/// The squares of the square part of the board on column `x` and row `y`.
pub proof fn lemma_square_of(row_size: u32, x: int, y: int)
    requires
        0 <= x < row_size,
        0 <= y < row_size,
        row_size <= 65535,
    ensures
        0 <= y * row_size + x <= u32::MAX,
        col_of(row_size, (y * row_size + x) as u32) == x,
        row_of(row_size, (y * row_size + x) as u32) == y,
        on_board(row_size, (y * row_size + x) as u32),
        forall|q: u32|
            on_board(row_size, q) && #[trigger] col_of(row_size, q) == x && row_of(row_size, q) == y
                ==> q == y * row_size + x,
{
    assert(y * row_size <= 65534 * 65535) by (nonlinear_arith)
        requires
            y < row_size,
            row_size <= 65535,
    ;
    assert(0 <= y * row_size) by (nonlinear_arith)
        requires
            0 <= y,
    ;
    vstd::arithmetic::div_mod::lemma_fundamental_div_mod_converse(
        y * row_size + x,
        row_size as int,
        y,
        x,
    );
    assert forall|q: u32|
        on_board(row_size, q) && #[trigger] col_of(row_size, q) == x && row_of(row_size, q) == y
            implies q == y * row_size + x by {
        vstd::arithmetic::div_mod::lemma_fundamental_div_mod(q as int, row_size as int);
        assert(row_size * y == y * row_size) by (nonlinear_arith);
    }
}

/// The squares holding a pawn, knight or king at one of the moves from
/// which such a piece checks a king at column `kx` and row `ky`.
pub open spec fn point_set(cells: Cells, row_size: u32, kx: u32, ky: u32) -> Set<u32> {
    move_set(cells, row_size, kx, ky, Piece::PAWN, seq![(-1i32, -1i32), (1i32, -1i32)]).union(
        move_set(
            cells,
            row_size,
            kx,
            ky,
            Piece::KNIGHT,
            seq![
                (-2i32, -1i32),
                (-2i32, 1i32),
                (-1i32, -2i32),
                (-1i32, 2i32),
                (1i32, -2i32),
                (1i32, 2i32),
                (2i32, -1i32),
                (2i32, 1i32),
            ],
        ),
    ).union(
        move_set(
            cells,
            row_size,
            kx,
            ky,
            Piece::KING,
            seq![
                (-1i32, -1i32),
                (-1i32, 0i32),
                (-1i32, 1i32),
                (0i32, -1i32),
                (0i32, 1i32),
                (1i32, -1i32),
                (1i32, 0i32),
                (1i32, 1i32),
            ],
        ),
    )
}

/// The coordinate along which a line of a kind is walked: the row on a
/// column, the column on any other line.
pub open spec fn coord(kind: int, row_size: u32, q: u32) -> int {
    if kind == 1 {
        row_of(row_size, q) as int
    } else {
        col_of(row_size, q) as int
    }
}

/// The column and row of the point at coordinate `c` of line `idx`.
pub open spec fn line_xy(kind: int, row_size: u32, idx: int, c: int) -> (int, int) {
    if kind == 0 {
        (c, idx)
    } else if kind == 1 {
        (idx, c)
    } else if kind == 2 {
        (c, idx - c)
    } else {
        (c, c + row_size - 1 - idx)
    }
}

/// The squares of line `idx` that hold a piece counted there, other than
/// the one at coordinate `kc`, with a coordinate below `bound`.
pub open spec fn scan_set(
    cells: Cells,
    row_size: u32,
    kind: int,
    idx: int,
    kc: int,
    bound: int,
) -> Set<u32> {
    Set::new(
        |q: u32|
            cells.contains_key(q) && on_board(row_size, q) && line_piece(kind, cells[q].0)
                && line_index(kind, row_size, q) == idx && coord(kind, row_size, q) != kc && coord(
                kind,
                row_size,
                q,
            ) < bound,
    )
}

/// Walking a line one coordinate further adds the square there when it lies
/// on the board, is not the king's and holds a piece counted on the line.
pub proof fn lemma_scan_step(cells: Cells, row_size: u32, kind: int, idx: int, kc: int, c: int)
    requires
        0 <= c,
        0 < row_size <= 65535,
        0 <= kind < 4,
    ensures
        ({
            let x = line_xy(kind, row_size, idx, c).0;
            let y = line_xy(kind, row_size, idx, c).1;
            let pos = (y * row_size + x) as u32;
            let before = scan_set(cells, row_size, kind, idx, kc, c);
            let after = scan_set(cells, row_size, kind, idx, kc, c + 1);
            if c != kc && 0 <= x < row_size && 0 <= y < row_size && cells.contains_key(pos)
                && line_piece(kind, cells[pos].0) {
                after == before.insert(pos) && !before.contains(pos)
            } else {
                after == before
            }
        }),
{
    let x = line_xy(kind, row_size, idx, c).0;
    let y = line_xy(kind, row_size, idx, c).1;
    let pos = (y * row_size + x) as u32;
    let before = scan_set(cells, row_size, kind, idx, kc, c);
    let after = scan_set(cells, row_size, kind, idx, kc, c + 1);
    let in_range = 0 <= x < row_size && 0 <= y < row_size;
    if in_range {
        lemma_square_of(row_size, x, y);
    }
    assert forall|q: u32| after.contains(q) <==> before.contains(q) || (c != kc && in_range && q
        == pos && cells.contains_key(pos) && line_piece(kind, cells[pos].0)) by {
        if after.contains(q) && !before.contains(q) {
            assert(coord(kind, row_size, q) == c);
            assert(col_of(row_size, q) == x && row_of(row_size, q) == y);
        }
    }
    if c != kc && in_range && cells.contains_key(pos) && line_piece(kind, cells[pos].0) {
        assert(after =~= before.insert(pos));
    } else {
        assert(after =~= before);
    }
}

/// The squares that sliding pieces check a king from: along its row, its
/// column and its two diagonals.
pub open spec fn sliding_set(cells: Cells, row_size: u32, kx: u32, ky: u32) -> Set<u32> {
    scan_set(cells, row_size, 0, ky as int, kx as int, row_size as int).union(
        scan_set(cells, row_size, 1, kx as int, ky as int, row_size as int),
    ).union(scan_set(cells, row_size, 2, kx + ky, kx as int, row_size as int)).union(
        scan_set(cells, row_size, 3, kx + row_size - 1 - ky, kx as int, row_size as int),
    )
}

/// A line that holds no counted piece has nothing to find along it.
pub proof fn lemma_scan_empty(cells: Cells, row_size: u32, kind: int, idx: int, kc: int, bound: int)
    requires
        cells.dom().finite(),
        line_set(cells, row_size, kind, idx).len() == 0,
    ensures
        scan_set(cells, row_size, kind, idx, kc, bound) == Set::<u32>::empty(),
{
    lemma_line_set_finite(cells, row_size, kind, idx);
    line_set(cells, row_size, kind, idx).lemma_len0_is_empty();
    assert forall|q: u32| !scan_set(cells, row_size, kind, idx, kc, bound).contains(q) by {
        if scan_set(cells, row_size, kind, idx, kc, bound).contains(q) {
            assert(line_set(cells, row_size, kind, idx).contains(q));
        }
    }
    assert(scan_set(cells, row_size, kind, idx, kc, bound) =~= Set::<u32>::empty());
}

/// A product of two naturals is 2 only for 1 and 2.
proof fn lemma_product_two(a: int, b: int)
    requires
        0 <= a,
        0 <= b,
        a * b == 2,
    ensures
        (a == 1 && b == 2) || (a == 2 && b == 1),
{
    if a == 0 {
        assert(a * b == 0);
    } else if a == 1 {
        assert(a * b == b);
    } else if a == 2 {
        assert(a * b == 2 * b);
    } else {
        if b == 0 {
            assert(a * b == 0);
        } else {
            assert(a * b >= 3) by (nonlinear_arith)
                requires
                    a >= 3,
                    b >= 1,
            ;
        }
    }
}

/// For a king on the square part of the board, the pieces that check it are
/// the pawns, knights and kings at a checking move from it and the sliding
/// pieces on its row, column and diagonals.
pub proof fn lemma_attackers_split(cells: Cells, row_size: u32, king_pos: u32)
    requires
        0 < row_size <= 65535,
        on_board(row_size, king_pos),
    ensures
        attackers(cells, row_size, king_pos) == point_set(
            cells,
            row_size,
            col_of(row_size, king_pos),
            row_of(row_size, king_pos),
        ).union(
            sliding_set(cells, row_size, col_of(row_size, king_pos), row_of(row_size, king_pos)),
        ),
{
    let kx = col_of(row_size, king_pos);
    let ky = row_of(row_size, king_pos);
    let pawns = seq![(-1i32, -1i32), (1i32, -1i32)];
    let knights = seq![
        (-2i32, -1i32),
        (-2i32, 1i32),
        (-1i32, -2i32),
        (-1i32, 2i32),
        (1i32, -2i32),
        (1i32, 2i32),
        (2i32, -1i32),
        (2i32, 1i32),
    ];
    let kings = seq![
        (-1i32, -1i32),
        (-1i32, 0i32),
        (-1i32, 1i32),
        (0i32, -1i32),
        (0i32, 1i32),
        (1i32, -1i32),
        (1i32, 0i32),
        (1i32, 1i32),
    ];
    let a = attackers(cells, row_size, king_pos);
    let b = point_set(cells, row_size, kx, ky).union(sliding_set(cells, row_size, kx, ky));
    assert(pawns[0] == (-1i32, -1i32) && pawns[1] == (1i32, -1i32));
    assert(knights[0] == (-2i32, -1i32) && knights[1] == (-2i32, 1i32) && knights[2] == (
    -1i32,
    -2i32,
    ) && knights[3] == (-1i32, 2i32) && knights[4] == (1i32, -2i32) && knights[5] == (1i32, 2i32)
        && knights[6] == (2i32, -1i32) && knights[7] == (2i32, 1i32));
    assert(kings[0] == (-1i32, -1i32) && kings[1] == (-1i32, 0i32) && kings[2] == (-1i32, 1i32)
        && kings[3] == (0i32, -1i32) && kings[4] == (0i32, 1i32) && kings[5] == (1i32, -1i32)
        && kings[6] == (1i32, 0i32) && kings[7] == (1i32, 1i32));
    assert forall|q: u32| a.contains(q) <==> b.contains(q) by {
        if cells.contains_key(q) && on_board(row_size, q) {
            let x = col_of(row_size, q) as int;
            let y = row_of(row_size, q) as int;
            let dx = dist(kx, col_of(row_size, q)) as int;
            let dy = dist(ky, row_of(row_size, q)) as int;
            let p = cells[q].0;
            if p == Piece::KNIGHT && a.contains(q) {
                lemma_product_two(dx, dy);
            }
            if p == Piece::KNIGHT && b.contains(q) {
                assert(move_set(cells, row_size, kx, ky, Piece::KNIGHT, knights).contains(q));
                let m = choose|m: int|
                    0 <= m < knights.len() && col_of(row_size, q) == kx + (#[trigger] knights[m]).0
                        && row_of(row_size, q) == ky + knights[m].1;
                assert((dx == 1 && dy == 2) || (dx == 2 && dy == 1));
                assert(dx * dy == 2) by (nonlinear_arith)
                    requires
                        (dx == 1 && dy == 2) || (dx == 2 && dy == 1),
                ;
            }
            if p == Piece::KING && b.contains(q) {
                assert(move_set(cells, row_size, kx, ky, Piece::KING, kings).contains(q));
            }
            if p == Piece::PAWN && b.contains(q) {
                assert(move_set(cells, row_size, kx, ky, Piece::PAWN, pawns).contains(q));
            }
        }
    }
    assert(a =~= b);
}

/// `r` is the least of a king's nonce and the nonces in `ts`.
pub open spec fn is_least_of(r: u32, ts: Set<u32>, king_nonce: u32) -> bool {
    &&& r == king_nonce || ts.contains(r)
    &&& r <= king_nonce
    &&& forall|t: u32| ts.contains(t) ==> r <= t
}

/// The least of a king's nonce and the nonces in `ts`.
pub open spec fn least_of(ts: Set<u32>, king_nonce: u32) -> u32 {
    choose|r: u32| is_least_of(r, ts, king_nonce)
}

/// Any least nonce is the one that `least_of` names.
pub proof fn lemma_least_of_unique(r: u32, ts: Set<u32>, king_nonce: u32)
    requires
        is_least_of(r, ts, king_nonce),
    ensures
        least_of(ts, king_nonce) == r,
{
    let s = least_of(ts, king_nonce);
    assert(is_least_of(s, ts, king_nonce));
}

/// How many threats a search counts and their nonces, after a king lands on
/// `king_pos` of `cells`: the pieces that check it.
pub open spec fn summary(cells: Cells, row_size: u32, king_pos: u32) -> (nat, Set<u32>) {
    (attackers(cells, row_size, king_pos).len(), attacker_nonces(cells, row_size, king_pos))
}

/// How the counted threats change when nonce `i` places `piece` on `pos`,
/// giving `cells`: a new king is checked by the pieces now on the board;
/// otherwise a piece that checks the last king counts once more, and nothing
/// changes for any other piece.
pub open spec fn next_threats(
    prev: (nat, Set<u32>),
    king: Option<(u32, u32)>,
    cells: Cells,
    row_size: u32,
    i: u32,
    piece: Piece,
    pos: u32,
) -> (nat, Set<u32>) {
    if piece == Piece::KING {
        summary(cells, row_size, pos)
    } else {
        match king {
            Some((king_pos, _)) => if checks(row_size, king_pos, pos, piece) {
                (prev.0 + 1, prev.1.insert(i))
            } else {
                prev
            },
            None => prev,
        }
    }
}

/// The answer once `count` threats with nonces `ts` check the last king:
/// the least nonce among them and the king, and the nonce `i` of the draw.
pub open spec fn answer_of(
    count: nat,
    ts: Set<u32>,
    king: Option<(u32, u32)>,
    i: u32,
    checks_needed: u32,
) -> Option<(u32, u32)> {
    match king {
        Some((_, king_nonce)) => if count >= checks_needed {
            Some((least_of(ts, king_nonce), i))
        } else {
            None
        },
        None => None,
    }
}

/// The board after the draws of every nonce below `end`.
pub open spec fn cells_upto(h: Seq<u8>, end: int, board_size: u32) -> Cells
    decreases end,
{
    if end <= 0 {
        Map::empty()
    } else {
        let i = (end - 1) as u32;
        let e = spec_hash(h, i);
        cells_upto(h, end - 1, board_size).insert(
            spec_draw_pos(e, board_size),
            (spec_draw_piece(e), i),
        )
    }
}

/// The square and nonce of the last king drawn below `end`.
pub open spec fn king_upto(h: Seq<u8>, end: int, board_size: u32) -> Option<(u32, u32)>
    decreases end,
{
    if end <= 0 {
        None
    } else {
        let i = (end - 1) as u32;
        let e = spec_hash(h, i);
        if spec_draw_piece(e) == Piece::KING {
            Some((spec_draw_pos(e, board_size), i))
        } else {
            king_upto(h, end - 1, board_size)
        }
    }
}

/// The threats that a search from `start` counts once it has drawn every
/// nonce below `end`: at the start, the pieces that check the last king on
/// the board replayed so far.
pub open spec fn threats_upto(h: Seq<u8>, start: u32, end: int, params: Params) -> (nat, Set<u32>)
    decreases end - start,
{
    if end <= start {
        match king_upto(h, start as int, params.board_size) {
            Some((king_pos, _)) => summary(
                cells_upto(h, start as int, params.board_size),
                params.row_size(),
                king_pos,
            ),
            None => (0, Set::empty()),
        }
    } else {
        let i = (end - 1) as u32;
        let e = spec_hash(h, i);
        next_threats(
            threats_upto(h, start, end - 1, params),
            king_upto(h, end - 1, params.board_size),
            cells_upto(h, end, params.board_size),
            params.row_size(),
            i,
            spec_draw_piece(e),
            spec_draw_pos(e, params.board_size),
        )
    }
}

/// What a search from `start` answers at nonce `i`.
pub open spec fn tracked_result(h: Seq<u8>, start: u32, i: int, params: Params) -> Option<(u32, u32)> {
    let t = threats_upto(h, start, i + 1, params);
    answer_of(t.0, t.1, king_upto(h, i + 1, params.board_size), i as u32, params.checks_needed)
}

/// What a search from `start` that reached nonce `i` without an answer
/// returns: the first answer from `i` up to the last try.
pub open spec fn tracked_search_from(h: Seq<u8>, start: u32, i: int, params: Params) -> Option<
    (u32, u32),
>
    decreases params.max_tries - i,
{
    if i >= params.max_tries || i < start {
        None
    } else if tracked_result(h, start, i, params) is Some {
        tracked_result(h, start, i, params)
    } else {
        tracked_search_from(h, start, i + 1, params)
    }
}

/// What the search from `start` over the hashes of `h` returns.
pub open spec fn spec_tracked_search(h: Seq<u8>, start: u32, params: Params) -> Option<(u32, u32)> {
    tracked_search_from(h, start, start as int, params)
}

/// The squares found by walking `moves` in order from the square at column
/// `kx` and row `ky`: each target on the square part of the board that
/// holds a `kind` piece.
pub open spec fn move_scan(
    cells: Cells,
    row_size: u32,
    kx: u32,
    ky: u32,
    kind: Piece,
    moves: Seq<(i32, i32)>,
) -> Seq<u32>
    decreases moves.len(),
{
    if moves.len() == 0 {
        Seq::empty()
    } else {
        let prev = move_scan(cells, row_size, kx, ky, kind, moves.drop_last());
        let tx = kx + moves.last().0;
        let ty = ky + moves.last().1;
        let pos = (ty * row_size + tx) as u32;
        if 0 <= tx < row_size && 0 <= ty < row_size && cells.contains_key(pos) && cells[pos].0
            == kind {
            prev.push(pos)
        } else {
            prev
        }
    }
}

/// The squares found by walking the pawn, knight and king moves, in this
/// order, from the square at column `kx` and row `ky`.
pub open spec fn point_scan(cells: Cells, row_size: u32, kx: u32, ky: u32) -> Seq<u32> {
    move_scan(cells, row_size, kx, ky, Piece::PAWN, seq![(-1i32, -1i32), (1i32, -1i32)]) + move_scan(
        cells,
        row_size,
        kx,
        ky,
        Piece::KNIGHT,
        seq![
            (-2i32, -1i32),
            (-2i32, 1i32),
            (-1i32, -2i32),
            (-1i32, 2i32),
            (1i32, -2i32),
            (1i32, 2i32),
            (2i32, -1i32),
            (2i32, 1i32),
        ],
    ) + move_scan(
        cells,
        row_size,
        kx,
        ky,
        Piece::KING,
        seq![
            (-1i32, -1i32),
            (-1i32, 0i32),
            (-1i32, 1i32),
            (0i32, -1i32),
            (0i32, 1i32),
            (1i32, -1i32),
            (1i32, 0i32),
            (1i32, 1i32),
        ],
    )
}

/// The squares found by walking line `idx` of a kind by ascending coordinate
/// below `bound`: each point on the square part of the board, other than
/// the one at coordinate `kc`, that holds a piece counted on the line.
pub open spec fn line_scan(
    cells: Cells,
    row_size: u32,
    kind: int,
    idx: int,
    kc: int,
    bound: int,
) -> Seq<u32>
    decreases bound,
{
    if bound <= 0 {
        Seq::empty()
    } else {
        let c = bound - 1;
        let prev = line_scan(cells, row_size, kind, idx, kc, c);
        let x = line_xy(kind, row_size, idx, c).0;
        let y = line_xy(kind, row_size, idx, c).1;
        let pos = (y * row_size + x) as u32;
        if c != kc && 0 <= x < row_size && 0 <= y < row_size && cells.contains_key(pos)
            && line_piece(kind, cells[pos].0) {
            prev.push(pos)
        } else {
            prev
        }
    }
}

/// Appending an element to a sequence adds it to the sequence's set.
pub proof fn lemma_push_to_set(s: Seq<u32>, x: u32)
    ensures
        s.push(x).to_set() == s.to_set().insert(x),
{
    let t = s.push(x);
    assert forall|y: u32| t.to_set().contains(y) <==> s.to_set().contains(y) || y == x by {
        if t.contains(y) {
            let j = choose|j: int| 0 <= j < t.len() && t[j] == y;
            if j < s.len() {
                assert(s[j] == y);
            }
        }
        if s.contains(y) {
            let j = choose|j: int| 0 <= j < s.len() && s[j] == y;
            assert(t[j] == y);
        }
        if y == x {
            assert(t[s.len() as int] == y);
        }
    }
    assert(t.to_set() =~= s.to_set().insert(x));
}

/// Walking a line finds exactly the squares of `scan_set` below the bound.
pub proof fn lemma_line_scan_set(cells: Cells, row_size: u32, kind: int, idx: int, kc: int, bound: int)
    requires
        0 < row_size <= 65535,
        0 <= kind < 4,
    ensures
        line_scan(cells, row_size, kind, idx, kc, bound).to_set() == scan_set(
            cells,
            row_size,
            kind,
            idx,
            kc,
            bound,
        ),
    decreases bound,
{
    if bound <= 0 {
        assert(scan_set(cells, row_size, kind, idx, kc, bound) =~= Set::<u32>::empty());
        assert(Seq::<u32>::empty().to_set() =~= Set::<u32>::empty());
    } else {
        let c = bound - 1;
        lemma_line_scan_set(cells, row_size, kind, idx, kc, c);
        lemma_scan_step(cells, row_size, kind, idx, kc, c);
        let prev = line_scan(cells, row_size, kind, idx, kc, c);
        let x = line_xy(kind, row_size, idx, c).0;
        let y = line_xy(kind, row_size, idx, c).1;
        let pos = (y * row_size + x) as u32;
        if c != kc && 0 <= x < row_size && 0 <= y < row_size && cells.contains_key(pos)
            && line_piece(kind, cells[pos].0) {
            lemma_push_to_set(prev, pos);
        }
    }
}

/// Walking a line finds at most one square per coordinate below the bound,
/// the king's coordinate excepted.
pub proof fn lemma_line_scan_len(cells: Cells, row_size: u32, kind: int, idx: int, kc: int, bound: int)
    requires
        0 <= bound,
    ensures
        line_scan(cells, row_size, kind, idx, kc, bound).len() <= bound - (if 0 <= kc < bound {
            1int
        } else {
            0int
        }),
    decreases bound,
{
    if bound > 0 {
        lemma_line_scan_len(cells, row_size, kind, idx, kc, bound - 1);
    }
}

/// The squares found by walking the king's row, column, diagonal and
/// anti-diagonal in full, in this order, each by ascending coordinate.
pub open spec fn line_walk(cells: Cells, row_size: u32, kx: u32, ky: u32) -> Seq<u32> {
    line_scan(cells, row_size, 0, ky as int, kx as int, row_size as int) + line_scan(
        cells,
        row_size,
        1,
        kx as int,
        ky as int,
        row_size as int,
    ) + line_scan(cells, row_size, 2, kx + ky, kx as int, row_size as int) + line_scan(
        cells,
        row_size,
        3,
        kx + row_size - 1 - ky,
        kx as int,
        row_size as int,
    )
}

/// The squares of the pieces that check a king on `king_pos`, in the order
/// they are found: pawns, knights and kings by their moves, then the sliding
/// pieces along the king's lines; none for a king off the square part of the
/// board.
pub open spec fn attack_scan(cells: Cells, row_size: u32, king_pos: u32) -> Seq<u32> {
    let kx = col_of(row_size, king_pos);
    let ky = row_of(row_size, king_pos);
    if on_board(row_size, king_pos) {
        point_scan(cells, row_size, kx, ky) + line_walk(cells, row_size, kx, ky)
    } else {
        Seq::empty()
    }
}

/// Putting a piece on an empty square hides no piece behind it: every square
/// found along a line before is found after, in the same order.
proof fn lemma_line_scan_insert(
    cells: Cells,
    row_size: u32,
    kind: int,
    idx: int,
    kc: int,
    bound: int,
    q: u32,
    entry: (Piece, u32),
)
    requires
        !cells.contains_key(q),
    ensures
        line_scan(cells.insert(q, entry), row_size, kind, idx, kc, bound).filter(|p: u32| p != q)
            == line_scan(cells, row_size, kind, idx, kc, bound),
        !line_piece(kind, entry.0) ==> line_scan(cells.insert(q, entry), row_size, kind, idx, kc, bound)
            == line_scan(cells, row_size, kind, idx, kc, bound),
    decreases bound,
{
    let after = cells.insert(q, entry);
    if bound <= 0 {
        reveal(Seq::filter);
        assert(Seq::<u32>::empty().filter(|p: u32| p != q) =~= Seq::<u32>::empty());
    } else {
        let c = bound - 1;
        lemma_line_scan_insert(cells, row_size, kind, idx, kc, c, q, entry);
        let prev_after = line_scan(after, row_size, kind, idx, kc, c);
        let x = line_xy(kind, row_size, idx, c).0;
        let y = line_xy(kind, row_size, idx, c).1;
        let pos = (y * row_size + x) as u32;
        let hit_after = c != kc && 0 <= x < row_size && 0 <= y < row_size && after.contains_key(pos)
            && line_piece(kind, after[pos].0);
        let f = |p: u32| p != q;
        reveal(Seq::filter);
        if hit_after {
            let s = prev_after.push(pos);
            assert(line_scan(after, row_size, kind, idx, kc, bound) == s);
            assert(s.drop_last() =~= prev_after);
            assert(s.last() == pos);
            assert(s.filter(f) == (if f(pos) {
                prev_after.filter(f).push(pos)
            } else {
                prev_after.filter(f)
            }));
        } else {
            assert(line_scan(after, row_size, kind, idx, kc, bound) == prev_after);
        }
    }
}

/// A piece put on an empty square hides no castle, bishop or queen along the
/// king's lines: the squares found before are all found after, in the same
/// order, and a pawn, knight or king changes nothing that is found.
pub proof fn lemma_nothing_blocks_a_line(
    cells: Cells,
    row_size: u32,
    kx: u32,
    ky: u32,
    q: u32,
    entry: (Piece, u32),
)
    requires
        !cells.contains_key(q),
    ensures
        line_walk(cells.insert(q, entry), row_size, kx, ky).filter(|p: u32| p != q) == line_walk(
            cells,
            row_size,
            kx,
            ky,
        ),
        !straight(entry.0) && !diagonal(entry.0) ==> line_walk(
            cells.insert(q, entry),
            row_size,
            kx,
            ky,
        ) == line_walk(cells, row_size, kx, ky),
        !straight(entry.0) && !diagonal(entry.0) ==> line_walk(
            cells.insert(q, entry),
            row_size,
            kx,
            ky,
        ).map_values(|p: u32| cells.insert(q, entry)[p].1) == line_walk(
            cells,
            row_size,
            kx,
            ky,
        ).map_values(|p: u32| cells[p].1),
{
    let after = cells.insert(q, entry);
    let n = row_size as int;
    let a0 = line_scan(after, row_size, 0, ky as int, kx as int, n);
    let a1 = line_scan(after, row_size, 1, kx as int, ky as int, n);
    let a2 = line_scan(after, row_size, 2, kx + ky, kx as int, n);
    let a3 = line_scan(after, row_size, 3, kx + row_size - 1 - ky, kx as int, n);
    lemma_line_scan_insert(cells, row_size, 0, ky as int, kx as int, n, q, entry);
    lemma_line_scan_insert(cells, row_size, 1, kx as int, ky as int, n, q, entry);
    lemma_line_scan_insert(cells, row_size, 2, kx + ky, kx as int, n, q, entry);
    lemma_line_scan_insert(cells, row_size, 3, kx + row_size - 1 - ky, kx as int, n, q, entry);
    let f = |p: u32| p != q;
    Seq::<u32>::filter_distributes_over_add(a0 + a1, a2 + a3, f);
    Seq::<u32>::filter_distributes_over_add(a0, a1, f);
    Seq::<u32>::filter_distributes_over_add(a2, a3, f);
    assert(a0 + a1 + a2 + a3 =~= (a0 + a1) + (a2 + a3));
    assert(line_walk(cells, row_size, kx, ky) =~= (a0.filter(f) + a1.filter(f)) + (a2.filter(f)
        + a3.filter(f)));
    if !straight(entry.0) && !diagonal(entry.0) {
        let w = line_walk(cells, row_size, kx, ky);
        assert forall|j: int| 0 <= j < w.len() implies w[j] != q by {
            // Every square found is a key of the board, and `q` is not.
            lemma_line_walk_keys(cells, row_size, kx, ky, j);
        }
        assert(w.map_values(|p: u32| after[p].1) =~= w.map_values(|p: u32| cells[p].1));
    }
}

/// Every square found along a line holds a piece of the board.
proof fn lemma_line_scan_keys(cells: Cells, row_size: u32, kind: int, idx: int, kc: int, bound: int, j: int)
    requires
        0 <= j < line_scan(cells, row_size, kind, idx, kc, bound).len(),
    ensures
        cells.contains_key(line_scan(cells, row_size, kind, idx, kc, bound)[j]),
    decreases bound,
{
    if bound > 0 {
        let prev = line_scan(cells, row_size, kind, idx, kc, bound - 1);
        if j < prev.len() {
            lemma_line_scan_keys(cells, row_size, kind, idx, kc, bound - 1, j);
        }
    }
}

/// Every square found along the king's lines holds a piece of the board.
proof fn lemma_line_walk_keys(cells: Cells, row_size: u32, kx: u32, ky: u32, j: int)
    requires
        0 <= j < line_walk(cells, row_size, kx, ky).len(),
    ensures
        cells.contains_key(line_walk(cells, row_size, kx, ky)[j]),
{
    let n = row_size as int;
    let a0 = line_scan(cells, row_size, 0, ky as int, kx as int, n);
    let a1 = line_scan(cells, row_size, 1, kx as int, ky as int, n);
    let a2 = line_scan(cells, row_size, 2, kx + ky, kx as int, n);
    let a3 = line_scan(cells, row_size, 3, kx + row_size - 1 - ky, kx as int, n);
    if j < a0.len() {
        lemma_line_scan_keys(cells, row_size, 0, ky as int, kx as int, n, j);
    } else if j < a0.len() + a1.len() {
        lemma_line_scan_keys(cells, row_size, 1, kx as int, ky as int, n, j - a0.len());
    } else if j < a0.len() + a1.len() + a2.len() {
        lemma_line_scan_keys(cells, row_size, 2, kx + ky, kx as int, n, j - a0.len() - a1.len());
    } else {
        lemma_line_scan_keys(
            cells,
            row_size,
            3,
            kx + row_size - 1 - ky,
            kx as int,
            n,
            j - a0.len() - a1.len() - a2.len(),
        );
    }
}

} // verus!
