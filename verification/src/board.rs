//! The 9x9 board: cell states, the open-position bookkeeping, and the
//! invariants that committing a value maintains.

use vstd::prelude::*;
use vstd::arithmetic::div_mod::lemma_fundamental_div_mod_converse;
use vstd::arithmetic::div_mod::lemma_fundamental_div_mod;

use crate::tile::SudokuTile;
use crate::tile::tile_idx;
use crate::candidates::CandidateSet;
use crate::candidates::cs_has;

verus! {

/// A grid coordinate: a row and a column, each in `[0, 9)`.
#[derive(Clone, Copy, Debug, Hash, PartialEq, Eq, Structural)]
pub struct Position {
    pub row: usize,
    pub col: usize,
}

/// Whether a position lies on the board.
pub open spec fn pos_ok(p: Position) -> bool {
    p.row < 9 && p.col < 9
}

/// The row-major cell index of a position.
pub open spec fn pos_idx(p: Position) -> int {
    p.row * 9 + p.col
}

/// The row of the cell with index `i`.
pub open spec fn row_of(i: int) -> int {
    i / 9
}

/// The column of the cell with index `i`.
pub open spec fn col_of(i: int) -> int {
    i % 9
}

/// The 3x3 box of the cell with index `i`.
pub open spec fn box_of(i: int) -> int {
    (row_of(i) / 3) * 3 + col_of(i) / 3
}

/// Whether two cells share a row, a column, or a 3x3 box.
pub open spec fn same_region(i: int, j: int) -> bool {
    row_of(i) == row_of(j) || col_of(i) == col_of(j) || box_of(i) == box_of(j)
}

/// A position's index decomposes into its row and column.
pub proof fn lemma_pos_idx(row: int, col: int)
    requires
        0 <= row < 9,
        0 <= col < 9,
    ensures
        0 <= row * 9 + col < 81,
        row_of(row * 9 + col) == row,
        col_of(row * 9 + col) == col,
{
    lemma_fundamental_div_mod_converse(row * 9 + col, 9, row, col);
}

/// A cell index is rebuilt from its row and column.
pub proof fn lemma_idx_decomp(i: int)
    requires
        0 <= i < 81,
    ensures
        i == row_of(i) * 9 + col_of(i),
        0 <= row_of(i) < 9,
        0 <= col_of(i) < 9,
{
    lemma_fundamental_div_mod(i, 9);
}

/// Whether cell `j` lies in the 3x3 box whose top-left corner is at row
/// `r0` and column `c0`.
pub open spec fn in_box_rect(j: int, r0: int, c0: int) -> bool {
    r0 <= row_of(j) < r0 + 3 && c0 <= col_of(j) < c0 + 3
}

/// Two cells share a box exactly when the second lies in the 3x3 rectangle
/// spanned from the first's box corner.
pub proof fn lemma_box_rect(i: int, j: int)
    requires
        0 <= i < 81,
        0 <= j < 81,
    ensures
        box_of(j) == box_of(i) <==> in_box_rect(j, (row_of(i) / 3) * 3, (col_of(i) / 3) * 3),
{
    lemma_idx_decomp(i);
    lemma_idx_decomp(j);
    let ri = row_of(i);
    let ci = col_of(i);
    let rj = row_of(j);
    let cj = col_of(j);
    assert(0 <= ri / 3 < 3 && 0 <= ci / 3 < 3 && 0 <= rj / 3 < 3 && 0 <= cj / 3 < 3) by {
        lemma_fundamental_div_mod(ri, 3);
        lemma_fundamental_div_mod(ci, 3);
        lemma_fundamental_div_mod(rj, 3);
        lemma_fundamental_div_mod(cj, 3);
    }
    if in_box_rect(j, (ri / 3) * 3, (ci / 3) * 3) {
        lemma_fundamental_div_mod_converse(rj, 3, ri / 3, rj - (ri / 3) * 3);
        lemma_fundamental_div_mod_converse(cj, 3, ci / 3, cj - (ci / 3) * 3);
    }
    if box_of(j) == box_of(i) {
        assert(rj / 3 == ri / 3 && cj / 3 == ci / 3);
        lemma_fundamental_div_mod(rj, 3);
        lemma_fundamental_div_mod(cj, 3);
    }
}

/// One cell: either finally committed to a tile, or open with the set of
/// tiles still legal for it.
#[derive(Clone, Copy, Debug)]
pub enum SudokuTileState {
    Committed(SudokuTile),
    Open(CandidateSet),
}

/// The committed value of cell `i`, as a tile index, or `None` when open.
pub open spec fn cell_val(b: Seq<SudokuTileState>, i: int) -> Option<int> {
    match b[i] {
        SudokuTileState::Committed(t) => Some(tile_idx(t)),
        SudokuTileState::Open(_) => None,
    }
}

/// Whether cell `i` is open.
pub open spec fn open_at(b: Seq<SudokuTileState>, i: int) -> bool {
    b[i] is Open
}

/// Whether the open cell `i` still lists the tile index `k` as a candidate.
pub open spec fn cand_at(b: Seq<SudokuTileState>, i: int, k: int) -> bool {
    match b[i] {
        SudokuTileState::Committed(_) => false,
        SudokuTileState::Open(s) => s.has(k),
    }
}

/// How many candidates the open cell `i` still lists.
pub open spec fn cand_count_at(b: Seq<SudokuTileState>, i: int) -> int {
    match b[i] {
        SudokuTileState::Committed(_) => 0,
        SudokuTileState::Open(s) => s.count(),
    }
}

/// Whether some other cell of `i`'s row, column, or box is committed to `k`.
pub open spec fn val_near(b: Seq<SudokuTileState>, i: int, k: int) -> bool {
    exists|j: int|
        0 <= j < 81 && j != i && same_region(i, j) && #[trigger] cell_val(b, j) == Some(k)
}

/// No two distinct cells of a shared region are committed to the same value.
pub open spec fn distinct_ok(b: Seq<SudokuTileState>) -> bool {
    forall|i: int, j: int|
        0 <= i < 81 && 0 <= j < 81 && i != j && same_region(i, j) && #[trigger] cell_val(b, i)
            is Some ==> cell_val(b, i) != #[trigger] cell_val(b, j)
}

/// An open cell lists exactly the values not committed anywhere in its row,
/// column, or box: propagation has removed a candidate if and only if a
/// region peer holds it.
pub open spec fn tight_ok(b: Seq<SudokuTileState>) -> bool {
    forall|i: int, k: int|
        0 <= i < 81 && 0 <= k < 9 && open_at(b, i) ==> (#[trigger] cand_at(b, i, k) <==> !val_near(
            b,
            i,
            k,
        ))
}

/// No open cell is left with exactly one candidate: forced commitments have
/// all been cascaded.
pub open spec fn cascaded_ok(b: Seq<SudokuTileState>) -> bool {
    forall|i: int| 0 <= i < 81 && open_at(b, i) ==> #[trigger] cand_count_at(b, i) != 1
}

/// The candidate bits of cell `i`, or zero when it is committed.
pub open spec fn bits_at(b: Seq<SudokuTileState>, i: int) -> u16 {
    match b[i] {
        SudokuTileState::Committed(_) => 0,
        SudokuTileState::Open(s) => s.bits,
    }
}

/// Whether every committed cell of `b` carries the value that the reference
/// grid `r` holds there.
pub open spec fn agrees_with(b: Seq<SudokuTileState>, r: Seq<SudokuTileState>) -> bool {
    forall|j: int|
        0 <= j < 81 && #[trigger] cell_val(b, j) is Some ==> cell_val(b, j) == cell_val(r, j)
}

/// A reference grid that propagation can be replayed against: regions
/// distinct, candidates tight, and no open cell down to fewer than two
/// candidates.
pub open spec fn ref_grid_ok(r: Seq<SudokuTileState>) -> bool {
    &&& r.len() == 81
    &&& distinct_ok(r)
    &&& tight_ok(r)
    &&& forall|j: int| 0 <= j < 81 && open_at(r, j) ==> #[trigger] cand_count_at(r, j) >= 2
}

/// A cell forced down to the single candidate `u` must hold exactly the
/// value that any agreeing reference grid holds there: the reference cannot
/// leave it open, and its committed value is the one candidate left.
proof fn lemma_forced_value(cur: Seq<SudokuTileState>, r: Seq<SudokuTileState>, q: int, u: int)
    requires
        cur.len() == 81,
        tight_ok(cur),
        agrees_with(cur, r),
        ref_grid_ok(r),
        0 <= q < 81,
        open_at(cur, q),
        cand_count_at(cur, q) == 1,
        cand_at(cur, q, u),
        0 <= u < 9,
    ensures
        cell_val(r, q) == Some(u),
{
    if open_at(r, q) {
        assert forall|k: int| 0 <= k < 9 && cs_has(bits_at(r, q), k) implies cs_has(
            bits_at(cur, q),
            k,
        ) by {
            if !cand_at(cur, q, k) {
                let j = choose|j: int|
                    0 <= j < 81 && j != q && same_region(q, j) && #[trigger] cell_val(cur, j)
                        == Some(k);
                assert(cell_val(r, j) == Some(k));
                assert(val_near(r, q, k));
                assert(!cand_at(r, q, k));
            }
        }
        crate::candidates::lemma_subset_count(bits_at(r, q), bits_at(cur, q), 9);
        assert(cand_count_at(r, q) <= 1);
        assert(false);
    }
    let w = choose|w: int| cell_val(r, q) == Some(w);
    assert(0 <= w < 9) by {
        let t = choose|t: SudokuTile| r[q] == SudokuTileState::Committed(t);
        assert(cell_val(r, q) == Some(tile_idx(t)));
    }
    if !cand_at(cur, q, w) {
        let j = choose|j: int|
            0 <= j < 81 && j != q && same_region(q, j) && #[trigger] cell_val(cur, j) == Some(w);
        assert(cell_val(r, j) == Some(w));
        assert(cell_val(r, q) == cell_val(r, j));
        assert(false);
    }
    if u != w {
        crate::candidates::lemma_two_members_count(bits_at(cur, q), u, w);
        assert(false);
    }
}

/// A 9x9 grid of cell states plus the set of positions still open.
pub struct Sudoku {
    /// The 81 cells, row-major.
    pub board: Vec<SudokuTileState>,
    /// The positions whose cells are still open.
    pub unset_positions: Vec<Position>,
}

impl Sudoku {
    /// The cells are 81 well-formed states.
    pub open spec fn board_ok(self) -> bool {
        &&& self.board@.len() == 81
        &&& forall|i: int|
            0 <= i < 81 ==> (#[trigger] self.board@[i] matches SudokuTileState::Open(s)
                ==> s.wf())
    }

    /// Whether cell `i` has an entry in the open-position list.
    pub open spec fn in_open_list(self, i: int) -> bool {
        exists|k: int|
            0 <= k < self.unset_positions@.len() && pos_idx(#[trigger] self.unset_positions@[k])
                == i
    }

    /// The open-position list holds exactly the open cells, each once.
    pub open spec fn open_list_ok(self) -> bool {
        &&& forall|k: int|
            0 <= k < self.unset_positions@.len() ==> pos_ok(#[trigger] self.unset_positions@[k])
                && open_at(self.board@, pos_idx(self.unset_positions@[k]))
        &&& forall|k1: int, k2: int|
            0 <= k1 < k2 < self.unset_positions@.len() ==> pos_idx(
                #[trigger] self.unset_positions@[k1],
            ) != pos_idx(#[trigger] self.unset_positions@[k2])
        &&& forall|i: int| 0 <= i < 81 && open_at(self.board@, i) ==> self.in_open_list(i)
    }

    /// The invariants that hold mid-propagation: cells well formed, the
    /// open list exact, committed values distinct per region, and candidate
    /// sets tight.
    pub open spec fn inv_core(self) -> bool {
        &&& self.board_ok()
        &&& self.open_list_ok()
        &&& distinct_ok(self.board@)
        &&& tight_ok(self.board@)
    }

    /// The full board invariant, as every public operation leaves it.
    pub open spec fn inv(self) -> bool {
        &&& self.inv_core()
        &&& cascaded_ok(self.board@)
    }

    /// A board with all 81 cells open and every candidate still possible.
    pub fn empty() -> (s: Sudoku)
        ensures
            s.inv(),
            s.unset_positions@.len() == 81,
            forall|i: int| 0 <= i < 81 ==> open_at(s.board@, i),
            forall|i: int, k: int| 0 <= i < 81 && 0 <= k < 9 ==> cand_at(s.board@, i, k),
    {
        let all = CandidateSet::all();
        let mut board: Vec<SudokuTileState> = Vec::new();
        let mut i: usize = 0;
        while i < 81
            invariant
                i <= 81,
                board@.len() == i,
                forall|j: int| 0 <= j < i ==> board@[j] == SudokuTileState::Open(all),
                all.wf(),
                all.count() == 9,
                forall|k: int| 0 <= k < 9 ==> all.has(k),
            decreases 81 - i,
        {
            board.push(SudokuTileState::Open(all));
            i = i + 1;
        }
        let mut unset_positions: Vec<Position> = Vec::new();
        let mut row: usize = 0;
        while row < 9
            invariant
                row <= 9,
                unset_positions@.len() == row * 9,
                forall|k: int|
                    0 <= k < unset_positions@.len() ==> #[trigger] unset_positions@[k] == (Position {
                        row: (k / 9) as usize,
                        col: (k % 9) as usize,
                    }) && pos_idx(unset_positions@[k]) == k,
            decreases 9 - row,
        {
            let mut col: usize = 0;
            while col < 9
                invariant
                    row < 9,
                    col <= 9,
                    unset_positions@.len() == row * 9 + col,
                    forall|k: int|
                        0 <= k < unset_positions@.len() ==> #[trigger] unset_positions@[k] == (
                        Position { row: (k / 9) as usize, col: (k % 9) as usize }) && pos_idx(
                            unset_positions@[k],
                        ) == k,
                decreases 9 - col,
            {
                let p = Position { row, col };
                proof {
                    lemma_pos_idx(row as int, col as int);
                }
                unset_positions.push(p);
                col = col + 1;
            }
            row = row + 1;
        }
        let s = Sudoku { board, unset_positions };
        proof {
            assert forall|i2: int| 0 <= i2 < 81 && open_at(s.board@, i2) implies s.in_open_list(
                i2,
            ) by {
                assert(pos_idx(s.unset_positions@[i2]) == i2);
            }
            assert forall|i2: int, k: int|
                0 <= i2 < 81 && 0 <= k < 9 && open_at(s.board@, i2) implies (cand_at(s.board@, i2, k)
                <==> !val_near(s.board@, i2, k)) by {
                assert(cand_at(s.board@, i2, k));
                assert forall|j: int| 0 <= j < 81 implies cell_val(s.board@, j) is None by {}
            }
        }
        s
    }
}

/// Whether the queue holds an entry for cell `i`.
pub open spec fn in_queue(q: Seq<Position>, i: int) -> bool {
    exists|m: int| 0 <= m < q.len() && pos_idx(#[trigger] q[m]) == i
}

/// Two boards with the same open-position list agree on which cells have
/// entries in it.
pub proof fn lemma_open_list_same(a: Sudoku, b: Sudoku, i: int)
    requires
        a.unset_positions@ == b.unset_positions@,
    ensures
        a.in_open_list(i) == b.in_open_list(i),
{
    if a.in_open_list(i) {
        let k = choose|k: int|
            0 <= k < a.unset_positions@.len() && pos_idx(#[trigger] a.unset_positions@[k]) == i;
        assert(pos_idx(b.unset_positions@[k]) == i);
    }
    if b.in_open_list(i) {
        let k = choose|k: int|
            0 <= k < b.unset_positions@.len() && pos_idx(#[trigger] b.unset_positions@[k]) == i;
        assert(pos_idx(a.unset_positions@[k]) == i);
    }
}

impl Sudoku {
    /// Remove `new_state` from the candidates of the cell at `position`, if
    /// it is open, and queue the cell when it is left with one candidate.
    fn update_single_cell(
        &mut self,
        position: Position,
        new_state: SudokuTile,
        queue: &mut Vec<Position>,
    )
        requires
            old(self).board_ok(),
            pos_ok(position),
            forall|m: int| 0 <= m < old(queue)@.len() ==> pos_ok(#[trigger] old(queue)@[m]),
        ensures
            final(self).board_ok(),
            final(self).unset_positions == old(self).unset_positions,
            forall|j: int|
                0 <= j < 81 && j != pos_idx(position) ==> final(self).board@[j] == old(
                    self,
                ).board@[j],
            cell_val(final(self).board@, pos_idx(position)) == cell_val(
                old(self).board@,
                pos_idx(position),
            ),
            open_at(final(self).board@, pos_idx(position)) == open_at(
                old(self).board@,
                pos_idx(position),
            ),
            forall|k: int|
                0 <= k < 9 ==> (cand_at(final(self).board@, pos_idx(position), k) <==> cand_at(
                    old(self).board@,
                    pos_idx(position),
                    k,
                ) && k != tile_idx(new_state)),
            forall|i: int| in_queue(old(queue)@, i) ==> in_queue(final(queue)@, i),
            forall|m: int| 0 <= m < final(queue)@.len() ==> pos_ok(#[trigger] final(queue)@[m]),
            open_at(final(self).board@, pos_idx(position)) && cand_count_at(
                final(self).board@,
                pos_idx(position),
            ) == 1 ==> in_queue(final(queue)@, pos_idx(position)),
    {
        let i = position.row * 9 + position.col;
        match self.board[i] {
            SudokuTileState::Committed(_) => {
            },
            SudokuTileState::Open(s) => {
                let s2 = s.remove(new_state);
                self.board.set(i, SudokuTileState::Open(s2));
                if s2.count_members() == 1 {
                    queue.push(position);
                    proof {
                        assert(pos_idx(queue@[queue@.len() - 1]) == pos_idx(position));
                        assert forall|i2: int| in_queue(old(queue)@, i2) implies in_queue(
                            queue@,
                            i2,
                        ) by {
                            let m = choose|m: int|
                                0 <= m < old(queue)@.len() && pos_idx(
                                    #[trigger] old(queue)@[m],
                                ) == i2;
                            assert(queue@[m] == old(queue)@[m]);
                            assert(pos_idx(queue@[m]) == i2);
                        }
                    }
                }
            },
        }
    }

    /// Remove `new_state` from the candidates of every open cell of
    /// `position`'s row, queueing cells left with one candidate.
    fn update_row(&mut self, position: Position, new_state: SudokuTile, queue: &mut Vec<Position>)
        requires
            old(self).board_ok(),
            pos_ok(position),
            forall|m: int| 0 <= m < old(queue)@.len() ==> pos_ok(#[trigger] old(queue)@[m]),
        ensures
            final(self).board_ok(),
            final(self).unset_positions == old(self).unset_positions,
            forall|j: int|
                0 <= j < 81 && row_of(j) != position.row ==> final(self).board@[j] == old(
                    self,
                ).board@[j],
            forall|j: int|
                0 <= j < 81 ==> cell_val(final(self).board@, j) == cell_val(old(self).board@, j)
                    && open_at(final(self).board@, j) == open_at(old(self).board@, j),
            forall|j: int, k: int|
                0 <= j < 81 && 0 <= k < 9 && row_of(j) == position.row ==> (#[trigger] cand_at(
                    final(self).board@,
                    j,
                    k,
                ) <==> cand_at(old(self).board@, j, k) && k != tile_idx(new_state)),
            forall|i: int| in_queue(old(queue)@, i) ==> in_queue(final(queue)@, i),
            forall|m: int| 0 <= m < final(queue)@.len() ==> pos_ok(#[trigger] final(queue)@[m]),
            forall|j: int|
                0 <= j < 81 && row_of(j) == position.row && open_at(final(self).board@, j)
                    && #[trigger] cand_count_at(final(self).board@, j) == 1 ==> in_queue(
                    final(queue)@,
                    j,
                ),
    {
        let ghost orig = *self;
        let ghost qorig = queue@;
        let row = position.row;
        let mut col: usize = 0;
        while col < 9
            invariant
                pos_ok(position),
                row == position.row,
                col <= 9,
                orig.board_ok(),
                self.board_ok(),
                self.unset_positions == orig.unset_positions,
                forall|j: int|
                    0 <= j < 81 && !(row_of(j) == row && col_of(j) < col) ==> #[trigger] self.board@[j]
                        == orig.board@[j],
                forall|j: int|
                    0 <= j < 81 ==> cell_val(self.board@, j) == cell_val(orig.board@, j) && open_at(
                        self.board@,
                        j,
                    ) == open_at(orig.board@, j),
                forall|j: int, k: int|
                    0 <= j < 81 && 0 <= k < 9 && row_of(j) == row && col_of(j) < col ==> (
                    #[trigger] cand_at(self.board@, j, k) <==> cand_at(orig.board@, j, k) && k
                        != tile_idx(new_state)),
                forall|i: int| in_queue(qorig, i) ==> in_queue(queue@, i),
                forall|m: int| 0 <= m < queue@.len() ==> pos_ok(#[trigger] queue@[m]),
                forall|j: int|
                    0 <= j < 81 && row_of(j) == row && col_of(j) < col && open_at(self.board@, j)
                        && #[trigger] cand_count_at(self.board@, j) == 1 ==> in_queue(queue@, j),
            decreases 9 - col,
        {
            let p = Position { row, col };
            proof {
                lemma_pos_idx(row as int, col as int);
            }
            let ghost pre = *self;
            let ghost qpre = queue@;
            self.update_single_cell(p, new_state, queue);
            proof {
                assert forall|j: int|
                    0 <= j < 81 && !(row_of(j) == row && col_of(j) < col + 1) implies #[trigger] self.board@[j]
                    == orig.board@[j] by {
                    lemma_idx_decomp(j);
                    assert(pre.board@[j] == orig.board@[j]);
                    assert(j != pos_idx(p));
                    assert(self.board@[j] == pre.board@[j]);
                }
                assert forall|j: int, k: int|
                    0 <= j < 81 && 0 <= k < 9 && row_of(j) == row && col_of(j) < col
                        + 1 implies (#[trigger] cand_at(self.board@, j, k) <==> cand_at(
                    orig.board@,
                    j,
                    k,
                ) && k != tile_idx(new_state)) by {
                    lemma_idx_decomp(j);
                    if j == pos_idx(p) {
                        assert(pre.board@[j] == orig.board@[j]);
                    } else {
                        assert(col_of(j) < col);
                        assert(cand_at(pre.board@, j, k) <==> cand_at(orig.board@, j, k) && k
                            != tile_idx(new_state));
                        assert(self.board@[j] == pre.board@[j]);
                    }
                }
                assert forall|j: int|
                    0 <= j < 81 && row_of(j) == row && col_of(j) < col + 1 && open_at(
                        self.board@,
                        j,
                    ) && #[trigger] cand_count_at(self.board@, j) == 1 implies in_queue(
                    queue@,
                    j,
                ) by {
                    lemma_idx_decomp(j);
                    if j != pos_idx(p) {
                        assert(col_of(j) < col);
                        assert(self.board@[j] == pre.board@[j]);
                        assert(cand_count_at(pre.board@, j) == 1);
                        assert(in_queue(qpre, j));
                    }
                }
            }
            col = col + 1;
        }
        proof {
            assert(orig == *old(self));
            assert(qorig == old(queue)@);
        }
    }

    /// Remove `new_state` from the candidates of every open cell of
    /// `position`'s column, queueing cells left with one candidate.
    fn update_col(&mut self, position: Position, new_state: SudokuTile, queue: &mut Vec<Position>)
        requires
            old(self).board_ok(),
            pos_ok(position),
            forall|m: int| 0 <= m < old(queue)@.len() ==> pos_ok(#[trigger] old(queue)@[m]),
        ensures
            final(self).board_ok(),
            final(self).unset_positions == old(self).unset_positions,
            forall|j: int|
                0 <= j < 81 && col_of(j) != position.col ==> final(self).board@[j] == old(
                    self,
                ).board@[j],
            forall|j: int|
                0 <= j < 81 ==> cell_val(final(self).board@, j) == cell_val(old(self).board@, j)
                    && open_at(final(self).board@, j) == open_at(old(self).board@, j),
            forall|j: int, k: int|
                0 <= j < 81 && 0 <= k < 9 && col_of(j) == position.col ==> (#[trigger] cand_at(
                    final(self).board@,
                    j,
                    k,
                ) <==> cand_at(old(self).board@, j, k) && k != tile_idx(new_state)),
            forall|i: int| in_queue(old(queue)@, i) ==> in_queue(final(queue)@, i),
            forall|m: int| 0 <= m < final(queue)@.len() ==> pos_ok(#[trigger] final(queue)@[m]),
            forall|j: int|
                0 <= j < 81 && col_of(j) == position.col && open_at(final(self).board@, j)
                    && #[trigger] cand_count_at(final(self).board@, j) == 1 ==> in_queue(
                    final(queue)@,
                    j,
                ),
    {
        let ghost orig = *self;
        let ghost qorig = queue@;
        let col = position.col;
        let mut row: usize = 0;
        while row < 9
            invariant
                pos_ok(position),
                col == position.col,
                row <= 9,
                orig.board_ok(),
                self.board_ok(),
                self.unset_positions == orig.unset_positions,
                forall|j: int|
                    0 <= j < 81 && !(col_of(j) == col && row_of(j) < row) ==> #[trigger] self.board@[j]
                        == orig.board@[j],
                forall|j: int|
                    0 <= j < 81 ==> cell_val(self.board@, j) == cell_val(orig.board@, j) && open_at(
                        self.board@,
                        j,
                    ) == open_at(orig.board@, j),
                forall|j: int, k: int|
                    0 <= j < 81 && 0 <= k < 9 && col_of(j) == col && row_of(j) < row ==> (
                    #[trigger] cand_at(self.board@, j, k) <==> cand_at(orig.board@, j, k) && k
                        != tile_idx(new_state)),
                forall|i: int| in_queue(qorig, i) ==> in_queue(queue@, i),
                forall|m: int| 0 <= m < queue@.len() ==> pos_ok(#[trigger] queue@[m]),
                forall|j: int|
                    0 <= j < 81 && col_of(j) == col && row_of(j) < row && open_at(self.board@, j)
                        && #[trigger] cand_count_at(self.board@, j) == 1 ==> in_queue(queue@, j),
            decreases 9 - row,
        {
            let p = Position { row, col };
            proof {
                lemma_pos_idx(row as int, col as int);
            }
            let ghost pre = *self;
            let ghost qpre = queue@;
            self.update_single_cell(p, new_state, queue);
            proof {
                assert forall|j: int|
                    0 <= j < 81 && !(col_of(j) == col && row_of(j) < row + 1) implies #[trigger] self.board@[j]
                    == orig.board@[j] by {
                    lemma_idx_decomp(j);
                    assert(pre.board@[j] == orig.board@[j]);
                    assert(j != pos_idx(p));
                    assert(self.board@[j] == pre.board@[j]);
                }
                assert forall|j: int, k: int|
                    0 <= j < 81 && 0 <= k < 9 && col_of(j) == col && row_of(j) < row
                        + 1 implies (#[trigger] cand_at(self.board@, j, k) <==> cand_at(
                    orig.board@,
                    j,
                    k,
                ) && k != tile_idx(new_state)) by {
                    lemma_idx_decomp(j);
                    if j == pos_idx(p) {
                        assert(pre.board@[j] == orig.board@[j]);
                    } else {
                        assert(row_of(j) < row);
                        assert(cand_at(pre.board@, j, k) <==> cand_at(orig.board@, j, k) && k
                            != tile_idx(new_state));
                        assert(self.board@[j] == pre.board@[j]);
                    }
                }
                assert forall|j: int|
                    0 <= j < 81 && col_of(j) == col && row_of(j) < row + 1 && open_at(
                        self.board@,
                        j,
                    ) && #[trigger] cand_count_at(self.board@, j) == 1 implies in_queue(
                    queue@,
                    j,
                ) by {
                    lemma_idx_decomp(j);
                    if j != pos_idx(p) {
                        assert(row_of(j) < row);
                        assert(self.board@[j] == pre.board@[j]);
                        assert(cand_count_at(pre.board@, j) == 1);
                        assert(in_queue(qpre, j));
                    }
                }
            }
            row = row + 1;
        }
        proof {
            assert(orig == *old(self));
            assert(qorig == old(queue)@);
        }
    }

    /// Remove `new_state` from the candidates of every open cell of
    /// `position`'s 3x3 box, queueing cells left with one candidate.
    fn update_box(&mut self, position: Position, new_state: SudokuTile, queue: &mut Vec<Position>)
        requires
            old(self).board_ok(),
            pos_ok(position),
            forall|m: int| 0 <= m < old(queue)@.len() ==> pos_ok(#[trigger] old(queue)@[m]),
        ensures
            final(self).board_ok(),
            final(self).unset_positions == old(self).unset_positions,
            forall|j: int|
                0 <= j < 81 && !in_box_rect(
                    j,
                    ((position.row / 3) * 3) as int,
                    ((position.col / 3) * 3) as int,
                ) ==> final(self).board@[j] == old(self).board@[j],
            forall|j: int|
                0 <= j < 81 ==> cell_val(final(self).board@, j) == cell_val(old(self).board@, j)
                    && open_at(final(self).board@, j) == open_at(old(self).board@, j),
            forall|j: int, k: int|
                0 <= j < 81 && 0 <= k < 9 && in_box_rect(
                    j,
                    ((position.row / 3) * 3) as int,
                    ((position.col / 3) * 3) as int,
                ) ==> (#[trigger] cand_at(final(self).board@, j, k) <==> cand_at(
                    old(self).board@,
                    j,
                    k,
                ) && k != tile_idx(new_state)),
            forall|i: int| in_queue(old(queue)@, i) ==> in_queue(final(queue)@, i),
            forall|m: int| 0 <= m < final(queue)@.len() ==> pos_ok(#[trigger] final(queue)@[m]),
            forall|j: int|
                0 <= j < 81 && in_box_rect(
                    j,
                    ((position.row / 3) * 3) as int,
                    ((position.col / 3) * 3) as int,
                ) && open_at(final(self).board@, j) && #[trigger] cand_count_at(
                    final(self).board@,
                    j,
                ) == 1 ==> in_queue(final(queue)@, j),
    {
        let ghost orig = *self;
        let ghost qorig = queue@;
        let r0 = (position.row / 3) * 3;
        let c0 = (position.col / 3) * 3;
        let mut dr: usize = 0;
        while dr < 3
            invariant
                pos_ok(position),
                r0 == (position.row / 3) * 3,
                c0 == (position.col / 3) * 3,
                r0 <= 6,
                c0 <= 6,
                dr <= 3,
                orig.board_ok(),
                self.board_ok(),
                self.unset_positions == orig.unset_positions,
                forall|j: int|
                    0 <= j < 81 && !(in_box_rect(j, r0 as int, c0 as int) && row_of(j) < r0 + dr)
                        ==> #[trigger] self.board@[j] == orig.board@[j],
                forall|j: int|
                    0 <= j < 81 ==> cell_val(self.board@, j) == cell_val(orig.board@, j) && open_at(
                        self.board@,
                        j,
                    ) == open_at(orig.board@, j),
                forall|j: int, k: int|
                    0 <= j < 81 && 0 <= k < 9 && in_box_rect(j, r0 as int, c0 as int) && row_of(j)
                        < r0 + dr ==> (#[trigger] cand_at(self.board@, j, k) <==> cand_at(
                    orig.board@,
                    j,
                    k,
                ) && k != tile_idx(new_state)),
                forall|i: int| in_queue(qorig, i) ==> in_queue(queue@, i),
                forall|m: int| 0 <= m < queue@.len() ==> pos_ok(#[trigger] queue@[m]),
                forall|j: int|
                    0 <= j < 81 && in_box_rect(j, r0 as int, c0 as int) && row_of(j) < r0 + dr
                        && open_at(self.board@, j) && #[trigger] cand_count_at(self.board@, j) == 1
                        ==> in_queue(queue@, j),
            decreases 3 - dr,
        {
            let row = r0 + dr;
            let mut dc: usize = 0;
            while dc < 3
                invariant
                    pos_ok(position),
                    r0 == (position.row / 3) * 3,
                    c0 == (position.col / 3) * 3,
                    r0 <= 6,
                    c0 <= 6,
                    dr < 3,
                    row == r0 + dr,
                    dc <= 3,
                    orig.board_ok(),
                    self.board_ok(),
                    self.unset_positions == orig.unset_positions,
                    forall|j: int|
                        0 <= j < 81 && !(in_box_rect(j, r0 as int, c0 as int) && (row_of(j) < row
                            || (row_of(j) == row && col_of(j) < c0 + dc))) ==> #[trigger] self.board@[j]
                            == orig.board@[j],
                    forall|j: int|
                        0 <= j < 81 ==> cell_val(self.board@, j) == cell_val(orig.board@, j)
                            && open_at(self.board@, j) == open_at(orig.board@, j),
                    forall|j: int, k: int|
                        0 <= j < 81 && 0 <= k < 9 && in_box_rect(j, r0 as int, c0 as int) && (
                        row_of(j) < row || (row_of(j) == row && col_of(j) < c0 + dc)) ==> (
                        #[trigger] cand_at(self.board@, j, k) <==> cand_at(orig.board@, j, k) && k
                            != tile_idx(new_state)),
                    forall|i: int| in_queue(qorig, i) ==> in_queue(queue@, i),
                    forall|m: int| 0 <= m < queue@.len() ==> pos_ok(#[trigger] queue@[m]),
                    forall|j: int|
                        0 <= j < 81 && in_box_rect(j, r0 as int, c0 as int) && (row_of(j) < row || (
                        row_of(j) == row && col_of(j) < c0 + dc)) && open_at(self.board@, j)
                            && #[trigger] cand_count_at(self.board@, j) == 1 ==> in_queue(
                            queue@,
                            j,
                        ),
                decreases 3 - dc,
            {
                let col = c0 + dc;
                let p = Position { row, col };
                proof {
                    lemma_pos_idx(row as int, col as int);
                }
                let ghost pre = *self;
                let ghost qpre = queue@;
                self.update_single_cell(p, new_state, queue);
                proof {
                    assert forall|j: int|
                        0 <= j < 81 && !(in_box_rect(j, r0 as int, c0 as int) && (row_of(j) < row
                            || (row_of(j) == row && col_of(j) < c0 + dc
                            + 1))) implies #[trigger] self.board@[j] == orig.board@[j] by {
                        lemma_idx_decomp(j);
                        assert(pre.board@[j] == orig.board@[j]);
                        assert(j != pos_idx(p));
                        assert(self.board@[j] == pre.board@[j]);
                    }
                    assert forall|j: int, k: int|
                        0 <= j < 81 && 0 <= k < 9 && in_box_rect(j, r0 as int, c0 as int) && (
                        row_of(j) < row || (row_of(j) == row && col_of(j) < c0 + dc
                            + 1)) implies (#[trigger] cand_at(self.board@, j, k) <==> cand_at(
                        orig.board@,
                        j,
                        k,
                    ) && k != tile_idx(new_state)) by {
                        lemma_idx_decomp(j);
                        if j == pos_idx(p) {
                            assert(pre.board@[j] == orig.board@[j]);
                        } else {
                            assert(cand_at(pre.board@, j, k) <==> cand_at(orig.board@, j, k) && k
                                != tile_idx(new_state));
                            assert(self.board@[j] == pre.board@[j]);
                        }
                    }
                    assert forall|j: int|
                        0 <= j < 81 && in_box_rect(j, r0 as int, c0 as int) && (row_of(j) < row || (
                        row_of(j) == row && col_of(j) < c0 + dc + 1)) && open_at(self.board@, j)
                            && #[trigger] cand_count_at(self.board@, j) == 1 implies in_queue(
                        queue@,
                        j,
                    ) by {
                        lemma_idx_decomp(j);
                        if j != pos_idx(p) {
                            assert(self.board@[j] == pre.board@[j]);
                            assert(cand_count_at(pre.board@, j) == 1);
                            assert(in_queue(qpre, j));
                        }
                    }
                }
                dc = dc + 1;
            }
            dr = dr + 1;
        }
        proof {
            assert(orig == *old(self));
            assert(qorig == old(queue)@);
            assert forall|j: int|
                0 <= j < 81 && in_box_rect(
                    j,
                    ((position.row / 3) * 3) as int,
                    ((position.col / 3) * 3) as int,
                ) implies row_of(j) < r0 + 3 by {}
        }
    }

    /// Drop `position` from the open-position list.
    fn remove_open(&mut self, position: Position)
        requires
            pos_ok(position),
            forall|m: int|
                0 <= m < old(self).unset_positions@.len() ==> pos_ok(
                    #[trigger] old(self).unset_positions@[m],
                ),
            forall|k1: int, k2: int|
                0 <= k1 < k2 < old(self).unset_positions@.len() ==> pos_idx(
                    #[trigger] old(self).unset_positions@[k1],
                ) != pos_idx(#[trigger] old(self).unset_positions@[k2]),
            old(self).in_open_list(pos_idx(position)),
        ensures
            final(self).board == old(self).board,
            final(self).unset_positions@.len() == old(self).unset_positions@.len() - 1,
            forall|m: int|
                0 <= m < final(self).unset_positions@.len() ==> pos_ok(
                    #[trigger] final(self).unset_positions@[m],
                ),
            forall|k1: int, k2: int|
                0 <= k1 < k2 < final(self).unset_positions@.len() ==> pos_idx(
                    #[trigger] final(self).unset_positions@[k1],
                ) != pos_idx(#[trigger] final(self).unset_positions@[k2]),
            forall|i: int|
                final(self).in_open_list(i) <==> (old(self).in_open_list(i) && i != pos_idx(
                    position,
                )),
    {
        let ghost orig = *self;
        let mut k: usize = 0;
        let len = self.unset_positions.len();
        proof {
            let m = choose|m: int|
                0 <= m < orig.unset_positions@.len() && pos_idx(
                    #[trigger] orig.unset_positions@[m],
                ) == pos_idx(position);
            lemma_pos_idx(orig.unset_positions@[m].row as int, orig.unset_positions@[m].col as int);
            lemma_pos_idx(position.row as int, position.col as int);
            assert(orig.unset_positions@[m] == position);
        }
        while k < len
            invariant_except_break
                len == self.unset_positions@.len(),
                *self == orig,
                k <= len,
                exists|m: int| k <= m < len && #[trigger] self.unset_positions@[m] == position,
            ensures
                *self == orig,
                len == self.unset_positions@.len(),
                k < len && self.unset_positions@[k as int] == position,
            decreases len - k,
        {
            if self.unset_positions[k] == position {
                break ;
            }
            k = k + 1;
            proof {
                let m = choose|m: int|
                    k - 1 <= m < len && #[trigger] self.unset_positions@[m] == position;
                assert(m >= k);
            }
        }
        self.unset_positions.swap_remove(k);
        proof {
            let newv = self.unset_positions@;
            let oldv = orig.unset_positions@;
            assert(newv.len() == len - 1);
            assert forall|m: int| 0 <= m < newv.len() implies pos_ok(#[trigger] newv[m]) && (m
                == k ==> newv[m] == oldv[len - 1]) && (m != k ==> newv[m] == oldv[m]) by {}
            assert forall|k1: int, k2: int| 0 <= k1 < k2 < newv.len() implies pos_idx(
                #[trigger] newv[k1],
            ) != pos_idx(#[trigger] newv[k2]) by {}
            assert forall|i: int| self.in_open_list(i) implies (orig.in_open_list(i) && i
                != pos_idx(position)) by {
                let m = choose|m: int| 0 <= m < newv.len() && pos_idx(#[trigger] newv[m]) == i;
                if m == k {
                    assert(pos_idx(oldv[len - 1]) == i);
                    assert(k < len - 1);
                } else {
                    assert(pos_idx(oldv[m]) == i);
                }
            }
            assert forall|i: int| orig.in_open_list(i) && i != pos_idx(position) implies self.in_open_list(i) by {
                let m = choose|m: int| 0 <= m < oldv.len() && pos_idx(#[trigger] oldv[m]) == i;
                assert(m != k);
                if m == len - 1 {
                    assert(k != len - 1);
                    assert(pos_idx(newv[k as int]) == i);
                } else {
                    assert(pos_idx(newv[m]) == i);
                }
            }
        }
    }

    /// Commit `value` to the open cell at `position`: set the cell, drop it
    /// from the open list, and remove `value` from the candidates of every
    /// open cell sharing its row, column, or box, queueing any cell left
    /// with a single candidate.
    fn commit_one(&mut self, position: Position, value: SudokuTile, queue: &mut Vec<Position>)
        requires
            old(self).inv_core(),
            pos_ok(position),
            open_at(old(self).board@, pos_idx(position)),
            cand_at(old(self).board@, pos_idx(position), tile_idx(value)),
            forall|m: int| 0 <= m < old(queue)@.len() ==> pos_ok(#[trigger] old(queue)@[m]),
        ensures
            final(self).inv_core(),
            cell_val(final(self).board@, pos_idx(position)) == Some(tile_idx(value)),
            forall|j: int|
                0 <= j < 81 && j != pos_idx(position) ==> cell_val(final(self).board@, j)
                    == cell_val(old(self).board@, j) && open_at(final(self).board@, j) == open_at(
                    old(self).board@,
                    j,
                ),
            forall|j: int, k: int|
                0 <= j < 81 && 0 <= k < 9 && j != pos_idx(position) ==> (#[trigger] cand_at(
                    final(self).board@,
                    j,
                    k,
                ) <==> cand_at(old(self).board@, j, k) && !(k == tile_idx(value) && same_region(
                    j,
                    pos_idx(position),
                ))),
            final(self).unset_positions@.len() == old(self).unset_positions@.len() - 1,
            forall|i: int|
                final(self).in_open_list(i) <==> (old(self).in_open_list(i) && i != pos_idx(
                    position,
                )),
            forall|i: int| in_queue(old(queue)@, i) ==> in_queue(final(queue)@, i),
            forall|m: int| 0 <= m < final(queue)@.len() ==> pos_ok(#[trigger] final(queue)@[m]),
            forall|i: int|
                0 <= i < 81 && open_at(final(self).board@, i) && #[trigger] cand_count_at(
                    final(self).board@,
                    i,
                ) == 1 ==> in_queue(final(queue)@, i) || (open_at(old(self).board@, i)
                    && cand_count_at(old(self).board@, i) == 1),
    {
        let i = position.row * 9 + position.col;
        proof {
            lemma_pos_idx(position.row as int, position.col as int);
        }
        self.remove_open(position);
        let ghost sr = *self;
        self.board.set(i, SudokuTileState::Committed(value));
        let ghost s1 = *self;
        let ghost q1 = queue@;
        self.update_row(position, value, queue);
        let ghost s2 = *self;
        let ghost q2 = queue@;
        self.update_col(position, value, queue);
        let ghost s3 = *self;
        let ghost q3 = queue@;
        self.update_box(position, value, queue);
        proof {
            let gi = pos_idx(position);
            let v = tile_idx(value);
            let oldb = old(self).board@;
            let newb = self.board@;
            lemma_pos_idx(position.row as int, position.col as int);
            assert(s1.board@[gi] == SudokuTileState::Committed(value));
            assert(cell_val(newb, gi) == Some(v));
            // how each cell moved from the snapshot after the set to the end
            assert forall|j: int| 0 <= j < 81 && j != gi implies cell_val(newb, j) == cell_val(
                oldb,
                j,
            ) && open_at(newb, j) == open_at(oldb, j) by {
                assert(s1.board@[j] == oldb[j]);
            }
            assert forall|j: int, k: int|
                0 <= j < 81 && 0 <= k < 9 && j != gi implies (#[trigger] cand_at(newb, j, k)
                <==> cand_at(oldb, j, k) && !(k == v && same_region(j, gi))) by {
                lemma_idx_decomp(j);
                lemma_box_rect(gi, j);
                assert(s1.board@[j] == oldb[j]);
                if row_of(j) == position.row {
                    assert(cand_at(s2.board@, j, k) <==> cand_at(s1.board@, j, k) && k != v);
                } else {
                    assert(s2.board@[j] == s1.board@[j]);
                }
                if col_of(j) == position.col {
                    assert(cand_at(s3.board@, j, k) <==> cand_at(s2.board@, j, k) && k != v);
                } else {
                    assert(s3.board@[j] == s2.board@[j]);
                }
                if in_box_rect(j, ((position.row / 3) * 3) as int, ((position.col / 3) * 3) as int) {
                    assert(cand_at(newb, j, k) <==> cand_at(s3.board@, j, k) && k != v);
                } else {
                    assert(newb[j] == s3.board@[j]);
                }
            }
            // the open list still matches the open cells
            assert forall|m: int|
                0 <= m < self.unset_positions@.len() implies pos_ok(
                    #[trigger] self.unset_positions@[m],
                ) && open_at(self.board@, pos_idx(self.unset_positions@[m])) by {
                let p2 = self.unset_positions@[m];
                assert(pos_idx(self.unset_positions@[m]) == pos_idx(p2));
                assert(self.in_open_list(pos_idx(p2)));
                lemma_open_list_same(*self, sr, pos_idx(p2));
                assert(old(self).in_open_list(pos_idx(p2)) && pos_idx(p2) != gi);
                assert(open_at(oldb, pos_idx(p2)));
            }
            assert forall|i2: int| 0 <= i2 < 81 && open_at(self.board@, i2) implies self.in_open_list(
                i2,
            ) by {
                assert(open_at(oldb, i2) && i2 != gi);
                assert(old(self).in_open_list(i2));
                lemma_open_list_same(*self, sr, i2);
            }
            // committed values stay distinct within each region
            assert forall|i2: int, j2: int|
                0 <= i2 < 81 && 0 <= j2 < 81 && i2 != j2 && same_region(i2, j2) && #[trigger] cell_val(
                    newb,
                    i2,
                ) is Some implies cell_val(newb, i2) != #[trigger] cell_val(newb, j2) by {
                if i2 == gi {
                    if cell_val(newb, j2) == Some(v) {
                        assert(cell_val(oldb, j2) == Some(v));
                        assert(val_near(oldb, gi, v));
                    }
                } else if j2 == gi {
                    if cell_val(newb, i2) == Some(v) {
                        assert(cell_val(oldb, i2) == Some(v));
                        assert(val_near(oldb, gi, v));
                    }
                } else {
                    assert(cell_val(oldb, i2) == cell_val(newb, i2));
                    assert(cell_val(oldb, j2) == cell_val(newb, j2));
                }
            }
            // candidate sets stay tight
            assert forall|i2: int, k: int|
                0 <= i2 < 81 && 0 <= k < 9 && open_at(newb, i2) implies (#[trigger] cand_at(
                newb,
                i2,
                k,
            ) <==> !val_near(newb, i2, k)) by {
                assert(i2 != gi);
                assert(cand_at(newb, i2, k) <==> cand_at(oldb, i2, k) && !(k == v && same_region(
                    i2,
                    gi,
                )));
                assert(cand_at(oldb, i2, k) <==> !val_near(oldb, i2, k));
                if val_near(newb, i2, k) {
                    let j2 = choose|j2: int|
                        0 <= j2 < 81 && j2 != i2 && same_region(i2, j2) && #[trigger] cell_val(
                            newb,
                            j2,
                        ) == Some(k);
                    if j2 == gi {
                        assert(k == v && same_region(i2, gi));
                        assert(!cand_at(newb, i2, k));
                    } else {
                        assert(cell_val(oldb, j2) == Some(k));
                        assert(val_near(oldb, i2, k));
                        assert(!cand_at(newb, i2, k));
                    }
                }
                if !val_near(newb, i2, k) {
                    if k == v && same_region(i2, gi) {
                        assert(cell_val(newb, gi) == Some(k));
                        assert(val_near(newb, i2, k));
                    }
                    if val_near(oldb, i2, k) {
                        let j2 = choose|j2: int|
                            0 <= j2 < 81 && j2 != i2 && same_region(i2, j2) && #[trigger] cell_val(
                                oldb,
                                j2,
                            ) == Some(k);
                        assert(j2 != gi);
                        assert(cell_val(newb, j2) == Some(k));
                        assert(val_near(newb, i2, k));
                    }
                    assert(cand_at(newb, i2, k));
                }
            }
            // every cell newly reduced to one candidate is queued
            assert forall|i2: int|
                0 <= i2 < 81 && open_at(newb, i2) && #[trigger] cand_count_at(newb, i2)
                    == 1 implies in_queue(queue@, i2) || (open_at(oldb, i2) && cand_count_at(
                oldb,
                i2,
            ) == 1) by {
                lemma_idx_decomp(i2);
                lemma_box_rect(gi, i2);
                if in_box_rect(
                    i2,
                    ((position.row / 3) * 3) as int,
                    ((position.col / 3) * 3) as int,
                ) {
                    assert(in_queue(queue@, i2));
                } else if col_of(i2) == position.col {
                    assert(newb[i2] == s3.board@[i2]);
                    assert(cand_count_at(s3.board@, i2) == 1);
                    assert(in_queue(q3, i2));
                    assert(in_queue(queue@, i2));
                } else if row_of(i2) == position.row {
                    assert(newb[i2] == s3.board@[i2] && s3.board@[i2] == s2.board@[i2]);
                    assert(cand_count_at(s2.board@, i2) == 1);
                    assert(in_queue(q2, i2));
                    assert(in_queue(queue@, i2));
                } else {
                    assert(newb[i2] == s1.board@[i2] && s1.board@[i2] == oldb[i2]);
                }
            }
            assert forall|i2: int|
                self.in_open_list(i2) == (old(self).in_open_list(i2) && i2 != gi) by {
                lemma_open_list_same(*self, sr, i2);
            }
        }
    }

    /// Commit `value` to the open cell at `position` and propagate: the
    /// value is removed from the candidates of every cell sharing a row,
    /// column, or box, and any cell thereby reduced to a single candidate is
    /// committed in turn, recursively, until no forced cell is left.
    pub fn commit(&mut self, position: Position, value: SudokuTile)
        requires
            old(self).inv(),
            pos_ok(position),
            open_at(old(self).board@, pos_idx(position)),
            cand_at(old(self).board@, pos_idx(position), tile_idx(value)),
        ensures
            final(self).inv(),
            cell_val(final(self).board@, pos_idx(position)) == Some(tile_idx(value)),
            forall|j: int|
                0 <= j < 81 && #[trigger] cell_val(old(self).board@, j) is Some ==> cell_val(
                    final(self).board@,
                    j,
                ) == cell_val(old(self).board@, j),
            forall|j: int| 0 <= j < 81 && open_at(final(self).board@, j) ==> open_at(
                old(self).board@,
                j,
            ),
            forall|j: int, k: int|
                0 <= j < 81 && 0 <= k < 9 && #[trigger] cand_at(final(self).board@, j, k)
                    ==> cand_at(old(self).board@, j, k),
            final(self).unset_positions@.len() < old(self).unset_positions@.len(),
            forall|i: int|
                final(self).in_open_list(i) ==> old(self).in_open_list(i) && i != pos_idx(
                    position,
                ),
            forall|r: Seq<SudokuTileState>|
                ref_grid_ok(r) && #[trigger] agrees_with(old(self).board@, r) && cell_val(
                    r,
                    pos_idx(position),
                ) == Some(tile_idx(value)) ==> #[trigger] agrees_with(final(self).board@, r),
    {
        let mut queue: Vec<Position> = Vec::new();
        let ghost orig = *old(self);
        self.commit_one(position, value, &mut queue);
        proof {
            assert forall|j: int, k: int|
                0 <= j < 81 && 0 <= k < 9 && #[trigger] cand_at(self.board@, j, k) implies cand_at(
                orig.board@,
                j,
                k,
            ) by {
                if j != pos_idx(position) {
                    assert(cand_at(self.board@, j, k) ==> cand_at(orig.board@, j, k));
                }
            }
            assert forall|r: Seq<SudokuTileState>|
                ref_grid_ok(r) && #[trigger] agrees_with(orig.board@, r) && cell_val(
                    r,
                    pos_idx(position),
                ) == Some(tile_idx(value)) implies #[trigger] agrees_with(self.board@, r) by {
                assert forall|j: int|
                    0 <= j < 81 && #[trigger] cell_val(self.board@, j) is Some implies cell_val(
                    self.board@,
                    j,
                ) == cell_val(r, j) by {
                    if j != pos_idx(position) {
                        assert(cell_val(self.board@, j) == cell_val(orig.board@, j));
                    }
                }
            }
        }
        while queue.len() > 0
            invariant
                orig.inv(),
                self.inv_core(),
                pos_ok(position),
                0 <= pos_idx(position) < 81,
                cell_val(self.board@, pos_idx(position)) == Some(tile_idx(value)),
                forall|m: int| 0 <= m < queue@.len() ==> pos_ok(#[trigger] queue@[m]),
                forall|i: int|
                    0 <= i < 81 && open_at(self.board@, i) && #[trigger] cand_count_at(
                        self.board@,
                        i,
                    ) == 1 ==> in_queue(queue@, i),
                forall|j: int|
                    0 <= j < 81 && #[trigger] cell_val(orig.board@, j) is Some ==> cell_val(
                        self.board@,
                        j,
                    ) == cell_val(orig.board@, j),
                forall|j: int| 0 <= j < 81 && open_at(self.board@, j) ==> open_at(orig.board@, j),
                forall|j: int, k: int|
                    0 <= j < 81 && 0 <= k < 9 && #[trigger] cand_at(self.board@, j, k) ==> cand_at(
                        orig.board@,
                        j,
                        k,
                    ),
                self.unset_positions@.len() < orig.unset_positions@.len(),
                forall|i: int|
                    self.in_open_list(i) ==> orig.in_open_list(i) && i != pos_idx(position),
                forall|r: Seq<SudokuTileState>|
                    ref_grid_ok(r) && #[trigger] agrees_with(orig.board@, r) && cell_val(
                        r,
                        pos_idx(position),
                    ) == Some(tile_idx(value)) ==> #[trigger] agrees_with(self.board@, r),
            decreases self.unset_positions@.len(), queue@.len(),
        {
            let ghost qs = queue@;
            let qp = match queue.pop() {
                Some(x) => x,
                None => {
                    proof {
                        assert(false);
                    }
                    position
                },
            };
            proof {
                assert(qp == qs[qs.len() - 1]);
                assert(pos_ok(qp));
                assert forall|i: int|
                    0 <= i < 81 && open_at(self.board@, i) && #[trigger] cand_count_at(
                        self.board@,
                        i,
                    ) == 1 && i != pos_idx(qp) implies in_queue(queue@, i) by {
                    let m = choose|m: int| 0 <= m < qs.len() && pos_idx(#[trigger] qs[m]) == i;
                    assert(m < qs.len() - 1);
                    assert(pos_idx(queue@[m]) == i);
                }
                lemma_pos_idx(qp.row as int, qp.col as int);
            }
            let qi = qp.row * 9 + qp.col;
            match self.board[qi] {
                SudokuTileState::Committed(_) => {
                    proof {
                        assert forall|i: int|
                            0 <= i < 81 && open_at(self.board@, i) && #[trigger] cand_count_at(
                                self.board@,
                                i,
                            ) == 1 implies in_queue(queue@, i) by {}
                    }
                },
                SudokuTileState::Open(cs) => {
                    if cs.count_members() == 1 {
                        let u = cs.only_member();
                        let ghost pre = *self;
                        let ghost qpre = queue@;
                        self.commit_one(qp, u, &mut queue);
                        proof {
                            assert(pos_idx(qp) != pos_idx(position));
                            assert(cell_val(self.board@, pos_idx(position)) == cell_val(
                                pre.board@,
                                pos_idx(position),
                            ));
                            assert forall|i: int|
                                0 <= i < 81 && open_at(self.board@, i) && #[trigger] cand_count_at(
                                    self.board@,
                                    i,
                                ) == 1 implies in_queue(queue@, i) by {
                                if !(in_queue(queue@, i)) {
                                    assert(open_at(pre.board@, i) && cand_count_at(pre.board@, i)
                                        == 1);
                                    assert(i != pos_idx(qp));
                                    assert(in_queue(qpre, i));
                                }
                            }
                            assert forall|j: int, k: int|
                                0 <= j < 81 && 0 <= k < 9 && #[trigger] cand_at(
                                    self.board@,
                                    j,
                                    k,
                                ) implies cand_at(orig.board@, j, k) by {
                                if j != pos_idx(qp) {
                                    assert(cand_at(pre.board@, j, k));
                                }
                            }
                            assert forall|j: int|
                                0 <= j < 81 && #[trigger] cell_val(orig.board@, j)
                                    is Some implies cell_val(self.board@, j) == cell_val(
                                orig.board@,
                                j,
                            ) by {
                                assert(cell_val(pre.board@, j) == cell_val(orig.board@, j));
                                if j != pos_idx(qp) {
                                    assert(cell_val(self.board@, j) == cell_val(pre.board@, j));
                                } else {
                                    assert(open_at(pre.board@, j));
                                    assert(false);
                                }
                            }
                            assert forall|i: int|
                                self.in_open_list(i) implies orig.in_open_list(i) && i != pos_idx(
                                position,
                            ) by {
                                assert(pre.in_open_list(i));
                            }
                            assert forall|r: Seq<SudokuTileState>|
                                ref_grid_ok(r) && #[trigger] agrees_with(orig.board@, r)
                                    && cell_val(r, pos_idx(position)) == Some(tile_idx(
                                    value,
                                )) implies #[trigger] agrees_with(self.board@, r) by {
                                assert(agrees_with(pre.board@, r));
                                lemma_forced_value(
                                    pre.board@,
                                    r,
                                    pos_idx(qp),
                                    tile_idx(u),
                                );
                                assert forall|j: int|
                                    0 <= j < 81 && #[trigger] cell_val(self.board@, j)
                                        is Some implies cell_val(self.board@, j) == cell_val(
                                    r,
                                    j,
                                ) by {
                                    if j != pos_idx(qp) {
                                        assert(cell_val(self.board@, j) == cell_val(
                                            pre.board@,
                                            j,
                                        ));
                                    }
                                }
                            }
                        }
                    } else {
                        proof {
                            assert forall|i: int|
                                0 <= i < 81 && open_at(self.board@, i) && #[trigger] cand_count_at(
                                    self.board@,
                                    i,
                                ) == 1 implies in_queue(queue@, i) by {
                                assert(i != pos_idx(qp));
                            }
                        }
                    }
                },
            }
        }
    }
}

} // verus!
