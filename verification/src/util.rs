//! Conversions between a board and flat 81-entry sequences, and the
//! board-reconstruction path that replays a seed through `commit`.

use vstd::prelude::*;

use crate::tile::SudokuTile;
use crate::tile::SudokuError;
use crate::tile::tile_idx;
use crate::tile::lemma_tile_idx_injective;
use crate::board::Sudoku;
use crate::board::SudokuTileState;
use crate::board::Position;
use crate::candidates::CandidateSet;
use crate::board::cell_val;
use crate::board::open_at;
use crate::board::cand_at;
use crate::board::cand_count_at;
use crate::board::val_near;
use crate::board::same_region;
use crate::board::agrees_with;
use crate::board::ref_grid_ok;
use crate::board::lemma_idx_decomp;
use crate::board::pos_idx;

verus! {

/// The value a seed prescribes for cell `i`, as a tile index.
pub open spec fn seed_cell(seed: Seq<Option<SudokuTile>>, i: int) -> Option<int> {
    match seed[i] {
        Some(t) => Some(tile_idx(t)),
        None => None,
    }
}

/// Whether the seed records exactly the committed cells of the reference
/// grid `r`.
pub open spec fn seed_matches(seed: Seq<Option<SudokuTile>>, r: Seq<SudokuTileState>) -> bool {
    forall|i: int| 0 <= i < 81 ==> #[trigger] seed_cell(seed, i) == cell_val(r, i)
}

/// Whether the flat integer array records exactly the committed cells of
/// the reference grid `r`: an entry in `[1, 9]` is that committed value,
/// any other entry an open cell.
pub open spec fn arr_matches(a: Seq<i32>, r: Seq<SudokuTileState>) -> bool {
    forall|i: int|
        0 <= i < 81 ==> #[trigger] cell_val(r, i) == (if 1 <= a[i] <= 9 {
            Some((a[i] - 1) as int)
        } else {
            None
        })
}

impl Sudoku {
    /// Rebuild a board from a seed of 81 optional values by replaying each
    /// given cell, in row-major order, through the commit-and-propagate
    /// path. A seed cell that clashes with what propagation has already
    /// forced is a dead end and is reported as such.
    pub fn create_from_board(seed: &Vec<Option<SudokuTile>>) -> (res: Result<Sudoku, SudokuError>)
        requires
            seed@.len() == 81,
        ensures
            res matches Ok(b) ==> b.inv(),
            res matches Ok(b) ==> forall|i: int|
                0 <= i < 81 && #[trigger] seed_cell(seed@, i) is Some ==> cell_val(b.board@, i)
                    == seed_cell(seed@, i),
            res matches Ok(b) ==> forall|r: Seq<SudokuTileState>|
                ref_grid_ok(r) && #[trigger] crate::util::seed_matches(seed@, r) ==> agrees_with(
                    b.board@,
                    r,
                ),
            forall|r: Seq<SudokuTileState>|
                ref_grid_ok(r) && #[trigger] crate::util::seed_matches(seed@, r) ==> res is Ok,
            res matches Ok(b) ==> forall|i: int, j: int|
                0 <= i < 81 && 0 <= j < 81 && i != j && same_region(i, j) && #[trigger] seed_cell(
                    seed@,
                    i,
                ) is Some ==> seed_cell(seed@, i) != #[trigger] seed_cell(seed@, j),
            res matches Err(e) ==> e == SudokuError::NoValidSudokuTile,
    {
        let mut b = Sudoku::empty();
        proof {
            assert forall|j: int| 0 <= j < 81 implies !(cell_val(b.board@, j) is Some) by {
                assert(open_at(b.board@, j));
            }
        }
        let mut i: usize = 0;
        while i < 81
            invariant
                seed@.len() == 81,
                b.inv(),
                i <= 81,
                forall|i2: int|
                    0 <= i2 < i && #[trigger] seed_cell(seed@, i2) is Some ==> cell_val(
                        b.board@,
                        i2,
                    ) == seed_cell(seed@, i2),
                forall|r: Seq<SudokuTileState>|
                    ref_grid_ok(r) && #[trigger] crate::util::seed_matches(seed@, r)
                        ==> agrees_with(b.board@, r),
            decreases 81 - i,
        {
            let entry = seed[i];
            match entry {
                None => {
                },
                Some(v) => {
                    let row = i / 9;
                    let col = i % 9;
                    let position = Position { row, col };
                    proof {
                        lemma_idx_decomp(i as int);
                        assert(pos_idx(position) == i as int);
                    }
                    match b.board[i] {
                        SudokuTileState::Committed(t) => {
                            if !(t == v) {
                                proof {
                                    assert forall|r: Seq<SudokuTileState>|
                                        ref_grid_ok(r) && #[trigger] crate::util::seed_matches(
                                            seed@,
                                            r,
                                        ) implies false by {
                                        assert(agrees_with(b.board@, r));
                                        assert(cell_val(b.board@, i as int) == Some(tile_idx(t)));
                                        assert(cell_val(r, i as int) == Some(tile_idx(t)));
                                        assert(seed_cell(seed@, i as int) == Some(tile_idx(v)));
                                        assert(cell_val(r, i as int) == Some(tile_idx(v)));
                                        lemma_tile_idx_injective(t, v);
                                    }
                                }
                                return Err(SudokuError::NoValidSudokuTile);
                            }
                        },
                        SudokuTileState::Open(s) => {
                            if s.contains(v) {
                                let ghost pre = b;
                                b.commit(position, v);
                                proof {
                                    assert forall|i2: int|
                                        0 <= i2 < i + 1 && #[trigger] seed_cell(seed@, i2)
                                            is Some implies cell_val(b.board@, i2) == seed_cell(
                                        seed@,
                                        i2,
                                    ) by {
                                        if i2 < i {
                                            assert(cell_val(pre.board@, i2) == seed_cell(
                                                seed@,
                                                i2,
                                            ));
                                        }
                                    }
                                    assert forall|r: Seq<SudokuTileState>|
                                        ref_grid_ok(r) && #[trigger] crate::util::seed_matches(
                                            seed@,
                                            r,
                                        ) implies agrees_with(b.board@, r) by {
                                        assert(agrees_with(pre.board@, r));
                                        assert(seed_cell(seed@, i as int) == cell_val(r, i as int));
                                    }
                                }
                            } else {
                                proof {
                                    assert forall|r: Seq<SudokuTileState>|
                                        ref_grid_ok(r) && #[trigger] crate::util::seed_matches(
                                            seed@,
                                            r,
                                        ) implies false by {
                                        assert(agrees_with(b.board@, r));
                                        assert(open_at(b.board@, i as int));
                                        assert(!cand_at(b.board@, i as int, tile_idx(v)));
                                        assert(val_near(b.board@, i as int, tile_idx(v)));
                                        let j = choose|j: int|
                                            0 <= j < 81 && j != i as int && same_region(
                                                i as int,
                                                j,
                                            ) && #[trigger] cell_val(b.board@, j) == Some(
                                                tile_idx(v),
                                            );
                                        assert(cell_val(r, j) == Some(tile_idx(v)));
                                        assert(cell_val(r, i as int) == Some(tile_idx(v)));
                                    }
                                }
                                return Err(SudokuError::NoValidSudokuTile);
                            }
                        },
                    }
                },
            }
            i = i + 1;
        }
        proof {
            assert forall|i2: int, j2: int|
                0 <= i2 < 81 && 0 <= j2 < 81 && i2 != j2 && same_region(i2, j2)
                    && #[trigger] seed_cell(seed@, i2) is Some implies seed_cell(seed@, i2)
                != #[trigger] seed_cell(seed@, j2) by {
                assert(cell_val(b.board@, i2) == seed_cell(seed@, i2));
                if seed_cell(seed@, j2) is Some {
                    assert(cell_val(b.board@, j2) == seed_cell(seed@, j2));
                    assert(cell_val(b.board@, i2) != cell_val(b.board@, j2));
                }
            }
        }
        Ok(b)
    }

    /// Rebuild a board from a flat row-major array of 81 integers, where
    /// values outside `[1, 9]` mean an unset cell. Any other length is
    /// rejected, as is a seed that clashes with its own propagation.
    pub fn create_from_arr(arr: &Vec<i32>) -> (res: Result<Sudoku, ()>)
        ensures
            arr@.len() != 81 ==> res is Err,
            res matches Ok(b) ==> arr@.len() == 81 && b.inv() && (forall|i: int|
                0 <= i < 81 && 1 <= arr@[i] <= 9 ==> cell_val(b.board@, i) == Some(arr@[i] - 1)),
            arr@.len() == 81 ==> forall|r: Seq<SudokuTileState>|
                ref_grid_ok(r) && #[trigger] arr_matches(arr@, r) ==> res is Ok,
            res matches Ok(b) ==> forall|r: Seq<SudokuTileState>|
                ref_grid_ok(r) && #[trigger] arr_matches(arr@, r) ==> agrees_with(b.board@, r),
    {
        if arr.len() != 81 {
            return Err(());
        }
        let seed = Self::seed_of_arr(arr);
        proof {
            assert forall|r: Seq<SudokuTileState>| #[trigger]
                arr_matches(arr@, r) implies crate::util::seed_matches(seed@, r) by {
                assert forall|i: int| 0 <= i < 81 implies #[trigger] seed_cell(seed@, i)
                    == cell_val(r, i) by {
                    assert(cell_val(r, i) == (if 1 <= arr@[i] <= 9 {
                        Some((arr@[i] - 1) as int)
                    } else {
                        None
                    }));
                }
            }
        }
        match Self::create_from_board(&seed) {
            Ok(b) => {
                proof {
                    assert forall|i: int| 0 <= i < 81 && 1 <= arr@[i] <= 9 implies cell_val(
                        b.board@,
                        i,
                    ) == Some(arr@[i] - 1) by {
                        assert(seed_cell(seed@, i) == Some((arr@[i] - 1) as int));
                        assert(cell_val(b.board@, i) == seed_cell(seed@, i));
                    }
                    assert forall|r: Seq<SudokuTileState>|
                        ref_grid_ok(r) && #[trigger] arr_matches(arr@, r) implies agrees_with(
                        b.board@,
                        r,
                    ) by {
                        assert(crate::util::seed_matches(seed@, r));
                    }
                }
                Ok(b)
            },
            Err(_) => {
                proof {
                    assert forall|r: Seq<SudokuTileState>|
                        ref_grid_ok(r) && #[trigger] arr_matches(arr@, r) implies false by {
                        assert(crate::util::seed_matches(seed@, r));
                    }
                }
                Err(())
            },
        }
    }

    /// Decode a flat array of 81 integers into a seed of optional tiles:
    /// values in `[1, 9]` become tiles, everything else is unset.
    pub fn seed_of_arr(arr: &Vec<i32>) -> (seed: Vec<Option<SudokuTile>>)
        requires
            arr@.len() == 81,
        ensures
            seed@.len() == 81,
            forall|i: int|
                0 <= i < 81 ==> #[trigger] seed_cell(seed@, i) == (if 1 <= arr@[i] <= 9 {
                    Some((arr@[i] - 1) as int)
                } else {
                    None
                }),
    {
        let mut seed: Vec<Option<SudokuTile>> = Vec::new();
        let mut i: usize = 0;
        while i < 81
            invariant
                arr@.len() == 81,
                seed@.len() == i,
                i <= 81,
                forall|i2: int|
                    0 <= i2 < i ==> #[trigger] seed_cell(seed@, i2) == (if 1 <= arr@[i2] <= 9 {
                        Some((arr@[i2] - 1) as int)
                    } else {
                        None
                    }),
            decreases 81 - i,
        {
            let ghost spre = seed@;
            let t = SudokuTile::from_i32(arr[i]);
            seed.push(t);
            proof {
                assert(seed@[i as int] == t);
                assert forall|i2: int|
                    0 <= i2 < i + 1 implies #[trigger] seed_cell(seed@, i2) == (if 1 <= arr@[i2]
                    <= 9 {
                    Some((arr@[i2] - 1) as int)
                } else {
                    None
                }) by {
                    if i2 < i {
                        assert(seed@[i2] == spre[i2]);
                        assert(seed_cell(spre, i2) == (if 1 <= arr@[i2] <= 9 {
                            Some((arr@[i2] - 1) as int)
                        } else {
                            None
                        }));
                    }
                }
            }
            i = i + 1;
        }
        seed
    }

    /// The board as a flat row-major array of 81 integers: a committed
    /// cell's numeric code in `[1, 9]`, and `-1` for an open cell.
    pub fn to_array(&self) -> (r: Vec<i32>)
        requires
            self.board_ok(),
        ensures
            r@.len() == 81,
            forall|i: int|
                0 <= i < 81 ==> #[trigger] r@[i] == (match cell_val(self.board@, i) {
                    Some(k) => k + 1,
                    None => -1,
                }),
    {
        let mut r: Vec<i32> = Vec::new();
        let mut i: usize = 0;
        while i < 81
            invariant
                self.board_ok(),
                r@.len() == i,
                i <= 81,
                forall|i2: int|
                    0 <= i2 < i ==> #[trigger] r@[i2] == (match cell_val(self.board@, i2) {
                        Some(k) => k + 1,
                        None => -1,
                    }),
            decreases 81 - i,
        {
            match self.board[i] {
                SudokuTileState::Committed(t) => {
                    r.push(t.to_i32());
                },
                SudokuTileState::Open(_) => {
                    r.push(-1);
                },
            }
            i = i + 1;
        }
        r
    }

    /// The board as 81 optional tiles, row-major: a committed cell's tile,
    /// and `None` for an open cell.
    pub fn get_board(&self) -> (r: Vec<Option<SudokuTile>>)
        requires
            self.board_ok(),
        ensures
            r@.len() == 81,
            forall|i: int| 0 <= i < 81 ==> #[trigger] seed_cell(r@, i) == cell_val(self.board@, i),
    {
        let mut r: Vec<Option<SudokuTile>> = Vec::new();
        let mut i: usize = 0;
        while i < 81
            invariant
                self.board_ok(),
                r@.len() == i,
                i <= 81,
                forall|i2: int|
                    0 <= i2 < i ==> #[trigger] seed_cell(r@, i2) == cell_val(self.board@, i2),
            decreases 81 - i,
        {
            let ghost rpre = r@;
            match self.board[i] {
                SudokuTileState::Committed(t) => {
                    r.push(Some(t));
                },
                SudokuTileState::Open(_) => {
                    r.push(None);
                },
            }
            proof {
                assert forall|i2: int|
                    0 <= i2 < i + 1 implies #[trigger] seed_cell(r@, i2) == cell_val(
                    self.board@,
                    i2,
                ) by {
                    if i2 < i {
                        assert(r@[i2] == rpre[i2]);
                        assert(seed_cell(rpre, i2) == cell_val(self.board@, i2));
                    } else {
                        assert(r@[i2] == r@[i as int]);
                    }
                }
            }
            i = i + 1;
        }
        r
    }

    /// Whether no open cell has more than one candidate left: the board is
    /// either fully committed or cannot be narrowed any further.
    pub fn is_filled(&self) -> (r: bool)
        requires
            self.inv(),
        ensures
            r == (forall|i: int|
                0 <= i < 81 && open_at(self.board@, i) ==> #[trigger] cand_count_at(self.board@, i)
                    <= 1),
    {
        let n = self.unset_positions.len();
        let mut k: usize = 0;
        while k < n
            invariant
                self.inv(),
                n == self.unset_positions@.len(),
                k <= n,
                forall|k2: int|
                    0 <= k2 < k ==> #[trigger] cand_count_at(
                        self.board@,
                        pos_idx(self.unset_positions@[k2]),
                    ) <= 1,
            decreases n - k,
        {
            let p = self.unset_positions[k];
            let i = p.row * 9 + p.col;
            match self.board[i] {
                SudokuTileState::Committed(_) => {
                },
                SudokuTileState::Open(s) => {
                    if s.count_members() > 1 {
                        proof {
                            assert(pos_idx(p) == i as int);
                            assert(open_at(self.board@, i as int));
                            assert(cand_count_at(self.board@, i as int) > 1);
                        }
                        return false;
                    }
                },
            }
            k = k + 1;
        }
        proof {
            assert forall|i: int|
                0 <= i < 81 && open_at(self.board@, i) implies #[trigger] cand_count_at(
                self.board@,
                i,
            ) <= 1 by {
                assert(self.in_open_list(i));
                let k2 = choose|k2: int|
                    0 <= k2 < self.unset_positions@.len() && pos_idx(
                        #[trigger] self.unset_positions@[k2],
                    ) == i;
                assert(cand_count_at(self.board@, pos_idx(self.unset_positions@[k2])) <= 1);
            }
        }
        true
    }

    /// A read-only view of the positions still open.
    pub fn open_positions(&self) -> (r: &Vec<Position>)
        ensures
            r@ == self.unset_positions@,
    {
        &self.unset_positions
    }

    /// The candidate set of the open cell at `position`.
    pub fn candidates_at(&self, position: Position) -> (s: CandidateSet)
        requires
            self.board_ok(),
            crate::board::pos_ok(position),
            open_at(self.board@, pos_idx(position)),
        ensures
            self.board@[pos_idx(position)] == SudokuTileState::Open(s),
    {
        let i = position.row * 9 + position.col;
        match self.board[i] {
            SudokuTileState::Open(s) => s,
            SudokuTileState::Committed(_) => {
                proof {
                    assert(false);
                }
                CandidateSet::empty()
            },
        }
    }
}

/// The half-open index range of the 3-cell band holding `index`: rows or
/// columns `0..3`, `3..6`, or `6..9`.
pub fn get_range(index: usize) -> (r: core::ops::Range<usize>)
    requires
        index < 9,
    ensures
        r.start == (index / 3) * 3,
        r.end == r.start + 3,
{
    match index {
        0..=2 => 0..3,
        3..=5 => 3..6,
        6..=8 => 6..9,
        _ => {
            proof {
                assert(false);
            }
            0..3
        },
    }
}


/// A board in which every open cell keeps at least one candidate can serve
/// as the reference grid of a replay: its regions are distinct, its
/// candidate sets tight, and no open cell is down to fewer than two
/// candidates.
pub proof fn lemma_ref_grid_ok(b: Sudoku)
    requires
        b.inv(),
        forall|i: int|
            0 <= i < 81 && open_at(b.board@, i) ==> #[trigger] cand_count_at(b.board@, i) != 0,
    ensures
        ref_grid_ok(b.board@),
{
    assert forall|j: int|
        0 <= j < 81 && open_at(b.board@, j) implies #[trigger] cand_count_at(b.board@, j) >= 2 by {
        crate::candidates::lemma_count_upto_bounds(crate::board::bits_at(b.board@, j), 9);
    }
}

/// Round trip: a board snapshot taken with `get_board` and replayed with
/// `create_from_board` reproduces a board with the same committed/open
/// partition and the same committed values, provided no open cell of the
/// snapshotted board had run out of candidates. The hypotheses on `b2` are
/// exactly what `create_from_board` ensures of its result on that seed.
pub proof fn lemma_round_trip(b: Sudoku, b2: Sudoku, seed: Seq<Option<SudokuTile>>)
    requires
        b.inv(),
        forall|i: int|
            0 <= i < 81 && open_at(b.board@, i) ==> #[trigger] cand_count_at(b.board@, i) != 0,
        seed.len() == 81,
        forall|i: int| 0 <= i < 81 ==> #[trigger] seed_cell(seed, i) == cell_val(b.board@, i),
        forall|i: int|
            0 <= i < 81 && #[trigger] seed_cell(seed, i) is Some ==> cell_val(b2.board@, i)
                == seed_cell(seed, i),
        forall|r: Seq<SudokuTileState>|
            ref_grid_ok(r) && #[trigger] seed_matches(seed, r) ==> agrees_with(b2.board@, r),
    ensures
        forall|i: int| 0 <= i < 81 ==> #[trigger] cell_val(b2.board@, i) == cell_val(b.board@, i),
{
    lemma_ref_grid_ok(b);
    assert(seed_matches(seed, b.board@));
    assert(agrees_with(b2.board@, b.board@));
    assert forall|i: int| 0 <= i < 81 implies #[trigger] cell_val(b2.board@, i) == cell_val(
        b.board@,
        i,
    ) by {
        if cell_val(b2.board@, i) is Some {
        } else {
            if cell_val(b.board@, i) is Some {
                assert(seed_cell(seed, i) is Some);
                assert(cell_val(b2.board@, i) == seed_cell(seed, i));
            }
        }
    }
}

} // verus!
