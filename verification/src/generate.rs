//! The generation driver: repeatedly commit the most constrained cell,
//! restarting from the seed on a dead end, up to a fixed attempt budget.

use vstd::prelude::*;
use vstd::seq_lib::group_seq_properties;
use vstd::set_lib::set_int_range;
use vstd::set_lib::lemma_int_range;
use vstd::set_lib::lemma_len_subset;

use crate::tile::SudokuTile;
use crate::tile::SudokuError;
use crate::tile::tile_of_idx;
use crate::tile::lemma_tile_of_idx;
use crate::board::Sudoku;
use crate::board::SudokuTileState;
use crate::board::cell_val;
use crate::board::open_at;
use crate::board::same_region;
use crate::board::box_of;
use crate::board::pos_idx;
use crate::board::lemma_pos_idx;
use crate::board::ref_grid_ok;
use crate::util::seed_cell;
use crate::util::seed_matches;

verus! {

/// What the external entry point reports instead of a completed grid.
#[derive(Clone, Copy, Debug, PartialEq, Eq, Structural)]
pub enum GenerateError {
    /// The input was not a flat array of exactly 81 entries.
    InvalidInput,
    /// The attempt budget ran out before a full board was reached.
    Timeout,
    /// The open-position bookkeeping and the cell states disagreed.
    InternalInconsistency,
}

/// A flat 81-entry grid in which every entry is a value in `[1, 9]` and no
/// two cells of a shared row, column, or box hold the same value.
pub open spec fn solved(s: Seq<i32>) -> bool {
    &&& s.len() == 81
    &&& forall|i: int| 0 <= i < 81 ==> 1 <= #[trigger] s[i] <= 9
    &&& forall|i: int, j: int|
        0 <= i < 81 && 0 <= j < 81 && i != j && same_region(i, j) ==> #[trigger] s[i]
            != #[trigger] s[j]
}

/// The `m`-th cell of region `g`: regions `0..9` are the rows, `9..18` the
/// columns, and `18..27` the 3x3 boxes.
pub open spec fn region_cell(g: int, m: int) -> int {
    if g < 9 {
        g * 9 + m
    } else if g < 18 {
        m * 9 + (g - 9)
    } else {
        (((g - 18) / 3) * 3 + m / 3) * 9 + ((g - 18) % 3) * 3 + m % 3
    }
}

/// The cells of one region are nine distinct cells of a shared region.
pub proof fn lemma_region_cells(g: int, m1: int, m2: int)
    requires
        0 <= g < 27,
        0 <= m1 < 9,
        0 <= m2 < 9,
    ensures
        0 <= region_cell(g, m1) < 81,
        m1 != m2 ==> region_cell(g, m1) != region_cell(g, m2),
        same_region(region_cell(g, m1), region_cell(g, m2)),
{
    if g < 9 {
        lemma_pos_idx(g, m1);
        lemma_pos_idx(g, m2);
    } else if g < 18 {
        lemma_pos_idx(m1, g - 9);
        lemma_pos_idx(m2, g - 9);
    } else {
        let gb = g - 18;
        vstd::arithmetic::div_mod::lemma_fundamental_div_mod(gb, 3);
        vstd::arithmetic::div_mod::lemma_fundamental_div_mod(m1, 3);
        vstd::arithmetic::div_mod::lemma_fundamental_div_mod(m2, 3);
        let r1 = (gb / 3) * 3 + m1 / 3;
        let c1 = (gb % 3) * 3 + m1 % 3;
        let r2 = (gb / 3) * 3 + m2 / 3;
        let c2 = (gb % 3) * 3 + m2 % 3;
        lemma_pos_idx(r1, c1);
        lemma_pos_idx(r2, c2);
        vstd::arithmetic::div_mod::lemma_fundamental_div_mod_converse(r1, 3, gb / 3, m1 / 3);
        vstd::arithmetic::div_mod::lemma_fundamental_div_mod_converse(c1, 3, gb % 3, m1 % 3);
        vstd::arithmetic::div_mod::lemma_fundamental_div_mod_converse(r2, 3, gb / 3, m2 / 3);
        vstd::arithmetic::div_mod::lemma_fundamental_div_mod_converse(c2, 3, gb % 3, m2 % 3);
        assert(box_of(region_cell(g, m1)) == box_of(region_cell(g, m2)));
    }
}

/// In a solved grid every region holds every value: the nine cells of a
/// region carry nine pairwise distinct values out of only nine possible,
/// so each value in `[1, 9]` appears in each region exactly once.
pub proof fn lemma_each_value_once(s: Seq<i32>, g: int, v: int)
    requires
        solved(s),
        0 <= g < 27,
        1 <= v <= 9,
    ensures
        exists|m: int| 0 <= m < 9 && s[#[trigger] region_cell(g, m)] == v,
{
    broadcast use group_seq_properties;

    let vals = Seq::new(9, |m: int| s[region_cell(g, m)] as int);
    assert forall|m1: int, m2: int| 0 <= m1 < 9 && 0 <= m2 < 9 && m1 != m2 implies vals[m1]
        != vals[m2] by {
        lemma_region_cells(g, m1, m2);
    }
    assert(vals.no_duplicates());
    vals.unique_seq_to_set();
    let range = set_int_range(1, 10);
    lemma_int_range(1, 10);
    if !vals.to_set().contains(v) {
        let smaller = range.remove(v);
        assert forall|x: int| vals.to_set().contains(x) implies smaller.contains(x) by {
            let m = choose|m: int| 0 <= m < vals.len() && vals[m] == x;
            lemma_region_cells(g, m, m);
            assert(1 <= s[region_cell(g, m)] <= 9);
        }
        lemma_len_subset(vals.to_set(), smaller);
        assert(smaller.len() == 9);
        assert(range.contains(v));
        assert(smaller.len() == range.len() - 1);
        assert(false);
    }
    let m = choose|m: int| 0 <= m < vals.len() && vals[m] == v;
    assert(s[region_cell(g, m)] == v);
}

/// The fully committed board that a solved flat grid describes.
pub open spec fn grid_of(s: Seq<i32>) -> Seq<SudokuTileState> {
    Seq::new(81, |i: int| SudokuTileState::Committed(tile_of_idx(s[i] - 1)))
}

/// A solved flat grid, read as a seed, admits a reference grid: the fully
/// committed board carrying its values. Replaying such a seed is therefore
/// owed success.
pub proof fn lemma_solved_grid(vals: Seq<i32>, seed: Seq<Option<SudokuTile>>)
    requires
        solved(vals),
        seed.len() == 81,
        forall|i: int|
            0 <= i < 81 ==> #[trigger] seed_cell(seed, i) == (if 1 <= vals[i] <= 9 {
                Some((vals[i] - 1) as int)
            } else {
                None
            }),
    ensures
        ref_grid_ok(grid_of(vals)),
        seed_matches(seed, grid_of(vals)),
{
    let r = grid_of(vals);
    assert forall|i: int| 0 <= i < 81 implies #[trigger] cell_val(r, i) == Some(vals[i] - 1)
        && !open_at(r, i) by {
        lemma_tile_of_idx(vals[i] - 1);
        assert(r[i] == SudokuTileState::Committed(tile_of_idx(vals[i] - 1)));
    }
    assert forall|i: int, j: int|
        0 <= i < 81 && 0 <= j < 81 && i != j && same_region(i, j) && #[trigger] cell_val(r, i)
            is Some implies cell_val(r, i) != #[trigger] cell_val(r, j) by {
        assert(vals[i] != vals[j]);
    }
    assert forall|i: int| 0 <= i < 81 implies #[trigger] seed_cell(seed, i) == cell_val(r, i) by {
        assert(1 <= vals[i] <= 9);
    }
}

/// Complete a puzzle. The input is a flat row-major array of exactly 81
/// integers in which values `1` to `9` are pre-filled cells and anything
/// else means unset. On success the result is a full solved grid that
/// keeps every pre-filled value; otherwise the error says whether the
/// input was malformed or the attempt budget ran out.
pub fn complete_sudoku(vals: &Vec<i32>) -> (res: Result<Vec<i32>, GenerateError>)
    ensures
        (vals@.len() != 81) <==> (res matches Err(e) && e == GenerateError::InvalidInput),
        !(res matches Err(e) && e == GenerateError::InternalInconsistency),
        res matches Ok(out) ==> solved(out@),
        solved(vals@) ==> res is Ok,
        res matches Ok(out) ==> forall|i: int|
            0 <= i < 81 && 1 <= #[trigger] vals@[i] <= 9 ==> out@[i] == vals@[i],
{
    if vals.len() != 81 {
        return Err(GenerateError::InvalidInput);
    }
    let seed = Sudoku::seed_of_arr(vals);
    let mut board = match Sudoku::create_from_board(&seed) {
        Ok(b) => b,
        Err(_) => {
            proof {
                if solved(vals@) {
                    lemma_solved_grid(vals@, seed@);
                    assert(false);
                }
            }
            return Err(GenerateError::Timeout);
        },
    };
    proof {
        if solved(vals@) {
            lemma_solved_grid(vals@, seed@);
            assert forall|i: int| 0 <= i < 81 implies #[trigger] cell_val(board.board@, i)
                is Some by {
                assert(seed_cell(seed@, i) is Some);
            }
            if board.unset_positions@.len() > 0 {
                let p = board.unset_positions@[0];
                assert(open_at(board.board@, pos_idx(p)));
                assert(cell_val(board.board@, pos_idx(p)) is Some);
                assert(false);
            }
        }
    }
    let mut attempts: usize = 0;
    while attempts < 1000
        invariant
            vals@.len() == 81,
            seed@.len() == 81,
            forall|i: int|
                0 <= i < 81 ==> #[trigger] seed_cell(seed@, i) == (if 1 <= vals@[i] <= 9 {
                    Some((vals@[i] - 1) as int)
                } else {
                    None
                }),
            board.inv(),
            forall|i: int|
                0 <= i < 81 && #[trigger] seed_cell(seed@, i) is Some ==> cell_val(board.board@, i)
                    == seed_cell(seed@, i),
            attempts <= 1000,
            solved(vals@) ==> (attempts == 0 && board.unset_positions@.len() == 0),
        decreases 1000 - attempts, board.unset_positions@.len(),
    {
        let ghost pre = board;
        match board.add_least_entropy() {
            Ok(_) => {
                proof {
                    if solved(vals@) {
                        assert(false);
                    }
                    assert forall|i: int|
                        0 <= i < 81 && #[trigger] seed_cell(seed@, i) is Some implies cell_val(
                        board.board@,
                        i,
                    ) == seed_cell(seed@, i) by {
                        assert(cell_val(pre.board@, i) is Some);
                    }
                }
            },
            Err(e) => match e {
                SudokuError::NoValidSudokuTile => {
                    proof {
                        if solved(vals@) {
                            assert(false);
                        }
                    }
                    attempts = attempts + 1;
                    board = match Sudoku::create_from_board(&seed) {
                        Ok(b) => b,
                        Err(_) => {
                            return Err(GenerateError::Timeout);
                        },
                    };
                },
                SudokuError::BoardFull => {
                    let out = board.to_array();
                    proof {
                        assert forall|i: int| 0 <= i < 81 implies cell_val(board.board@, i)
                            is Some by {
                            if open_at(board.board@, i) {
                                assert(board.in_open_list(i));
                                assert(false);
                            }
                        }
                        assert forall|i: int| 0 <= i < 81 implies 1 <= #[trigger] out@[i] <= 9 by {
                            let k = choose|k: int| cell_val(board.board@, i) == Some(k);
                            let t = choose|t: SudokuTile|
                                board.board@[i] == crate::board::SudokuTileState::Committed(t);
                            assert(0 <= crate::tile::tile_idx(t) < 9);
                        }
                        assert forall|i: int, j: int|
                            0 <= i < 81 && 0 <= j < 81 && i != j && same_region(
                                i,
                                j,
                            ) implies #[trigger] out@[i] != #[trigger] out@[j] by {
                            assert(cell_val(board.board@, i) is Some);
                            assert(cell_val(board.board@, i) != cell_val(board.board@, j));
                        }
                        assert forall|i: int|
                            0 <= i < 81 && 1 <= #[trigger] vals@[i] <= 9 implies out@[i]
                            == vals@[i] by {
                            assert(seed_cell(seed@, i) == Some((vals@[i] - 1) as int));
                            assert(cell_val(board.board@, i) == seed_cell(seed@, i));
                        }
                    }
                    return Ok(out);
                },
                SudokuError::BoardHashMapDisagreement => {
                    proof {
                        assert(false);
                    }
                    return Err(GenerateError::InternalInconsistency);
                },
            },
        }
    }
    proof {
        if solved(vals@) {
            assert(false);
        }
    }
    Err(GenerateError::Timeout)
}

} // verus!
