//! The selection strategies: commit a random open cell, or the open cell
//! with the fewest remaining candidates, to a randomly drawn candidate.

use vstd::prelude::*;

use rand::Rng;

use crate::tile::SudokuTile;
use crate::tile::SudokuError;
use crate::tile::tile_idx;
use crate::board::Sudoku;
use crate::board::SudokuTileState;
use crate::board::Position;
use crate::board::cell_val;
use crate::board::open_at;
use crate::board::cand_at;
use crate::board::cand_count_at;
use crate::board::pos_idx;
use crate::board::pos_ok;
use crate::board::lemma_pos_idx;

verus! {

/// Relies on rand::Rng::gen_range over the half-open range `0..n`: the
/// result is a draw below `n`, uniform over it; the call panics only on an
/// empty range, which the precondition excludes.
#[verifier::external_body]
fn gen_below(n: usize) -> (r: usize)
    requires
        n > 0,
    ensures
        r < n,
{
    rand::thread_rng().gen_range(0..n)
}

impl Sudoku {
    /// The number of candidates of the open cell at list index `k`.
    fn count_at(&self, k: usize) -> (c: usize)
        requires
            self.inv(),
            k < self.unset_positions@.len(),
        ensures
            c == cand_count_at(self.board@, pos_idx(self.unset_positions@[k as int])),
    {
        let p = self.unset_positions[k];
        let i = p.row * 9 + p.col;
        match self.board[i] {
            SudokuTileState::Open(s) => s.count_members(),
            SudokuTileState::Committed(_) => {
                proof {
                    assert(open_at(self.board@, pos_idx(self.unset_positions@[k as int])));
                    assert(false);
                }
                0
            },
        }
    }

    /// Commit a uniformly random open cell to a uniformly random member of
    /// its candidate set, propagating the consequences. Reports `BoardFull`
    /// when no cell is open and `NoValidSudokuTile` when the drawn cell has
    /// no candidate left; in either case the board is unchanged.
    pub fn add_random(&mut self) -> (res: Result<SudokuTile, SudokuError>)
        requires
            old(self).inv(),
        ensures
            final(self).inv(),
            (old(self).unset_positions@.len() == 0) <==> (res matches Err(e) && e
                == SudokuError::BoardFull),
            res is Err ==> *final(self) == *old(self),
            !(res matches Err(e) && e == SudokuError::BoardHashMapDisagreement),
            res matches Err(e) && e == SudokuError::NoValidSudokuTile ==> exists|i: int|
                0 <= i < 81 && open_at(old(self).board@, i) && #[trigger] cand_count_at(
                    old(self).board@,
                    i,
                ) == 0,
            (old(self).unset_positions@.len() > 0 && (forall|i: int|
                0 <= i < 81 && open_at(old(self).board@, i) ==> #[trigger] cand_count_at(
                    old(self).board@,
                    i,
                ) != 0)) ==> res is Ok,
            res is Ok ==> final(self).unset_positions@.len() < old(
                self,
            ).unset_positions@.len(),
            res matches Ok(v) ==> exists|i: int|
                0 <= i < 81 && open_at(old(self).board@, i) && cand_at(
                    old(self).board@,
                    i,
                    tile_idx(v),
                ) && #[trigger] cell_val(final(self).board@, i) == Some(tile_idx(v)),
            forall|j: int|
                0 <= j < 81 && #[trigger] cell_val(old(self).board@, j) is Some ==> cell_val(
                    final(self).board@,
                    j,
                ) == cell_val(old(self).board@, j),
            forall|j: int| 0 <= j < 81 && open_at(final(self).board@, j) ==> open_at(
                old(self).board@,
                j,
            ),
            forall|j: int, k: int|
                0 <= j < 81 && 0 <= k < 9 && #[trigger] cand_at(final(self).board@, j, k)
                    ==> cand_at(old(self).board@, j, k),
    {
        let n = self.unset_positions.len();
        if n == 0 {
            return Err(SudokuError::BoardFull);
        }
        let k = gen_below(n);
        let p = self.unset_positions[k];
        let i = p.row * 9 + p.col;
        proof {
            assert(pos_ok(p));
            lemma_pos_idx(p.row as int, p.col as int);
        }
        match self.board[i] {
            SudokuTileState::Committed(_) => {
                proof {
                    assert(open_at(self.board@, pos_idx(self.unset_positions@[k as int])));
                    assert(false);
                }
                Err(SudokuError::BoardHashMapDisagreement)
            },
            SudokuTileState::Open(s) => {
                let c = s.count_members();
                if c == 0 {
                    proof {
                        assert(open_at(self.board@, i as int));
                        assert(cand_count_at(self.board@, i as int) == 0);
                    }
                    Err(SudokuError::NoValidSudokuTile)
                } else {
                    let t = s.nth(gen_below(c));
                    proof {
                        assert(cand_at(self.board@, i as int, tile_idx(t)));
                    }
                    self.commit(p, t);
                    proof {
                        assert(cell_val(self.board@, i as int) == Some(tile_idx(t)));
                        assert(open_at(old(self).board@, i as int));
                        assert(cand_at(old(self).board@, i as int, tile_idx(t)));
                    }
                    Ok(t)
                }
            },
        }
    }

    /// Commit the open cell with the fewest remaining candidates (ties
    /// broken by list order) to a uniformly random member of its candidate
    /// set, propagating the consequences. Reports `BoardFull` when no cell
    /// is open; reports `NoValidSudokuTile` exactly when some open cell has
    /// no candidate left, in which case the board is unchanged.
    pub fn add_least_entropy(&mut self) -> (res: Result<SudokuTile, SudokuError>)
        requires
            old(self).inv(),
        ensures
            final(self).inv(),
            (old(self).unset_positions@.len() == 0) <==> (res matches Err(e) && e
                == SudokuError::BoardFull),
            res is Err ==> *final(self) == *old(self),
            !(res matches Err(e) && e == SudokuError::BoardHashMapDisagreement),
            (res matches Err(e) && e == SudokuError::NoValidSudokuTile) <==> (old(
                self,
            ).unset_positions@.len() > 0 && exists|i: int|
                0 <= i < 81 && open_at(old(self).board@, i) && #[trigger] cand_count_at(
                    old(self).board@,
                    i,
                ) == 0),
            res is Ok ==> final(self).unset_positions@.len() < old(
                self,
            ).unset_positions@.len(),
            res matches Ok(v) ==> exists|i: int|
                0 <= i < 81 && open_at(old(self).board@, i) && cand_at(
                    old(self).board@,
                    i,
                    tile_idx(v),
                ) && #[trigger] cell_val(final(self).board@, i) == Some(tile_idx(v)) && (forall|
                    j: int,
                |
                    0 <= j < 81 && open_at(old(self).board@, j) ==> #[trigger] cand_count_at(
                        old(self).board@,
                        j,
                    ) >= cand_count_at(old(self).board@, i)),
            forall|j: int|
                0 <= j < 81 && #[trigger] cell_val(old(self).board@, j) is Some ==> cell_val(
                    final(self).board@,
                    j,
                ) == cell_val(old(self).board@, j),
            forall|j: int| 0 <= j < 81 && open_at(final(self).board@, j) ==> open_at(
                old(self).board@,
                j,
            ),
            forall|j: int, k: int|
                0 <= j < 81 && 0 <= k < 9 && #[trigger] cand_at(final(self).board@, j, k)
                    ==> cand_at(old(self).board@, j, k),
    {
        let n = self.unset_positions.len();
        if n == 0 {
            return Err(SudokuError::BoardFull);
        }
        let mut best: usize = 0;
        let mut bestcnt = self.count_at(0);
        let mut k: usize = 1;
        while k < n
            invariant
                self.inv(),
                n == self.unset_positions@.len(),
                0 < n,
                k <= n,
                best < k,
                bestcnt == cand_count_at(self.board@, pos_idx(self.unset_positions@[best as int])),
                forall|k2: int|
                    0 <= k2 < k ==> #[trigger] cand_count_at(
                        self.board@,
                        pos_idx(self.unset_positions@[k2]),
                    ) >= bestcnt,
            decreases n - k,
        {
            let cnt = self.count_at(k);
            if cnt < bestcnt {
                best = k;
                bestcnt = cnt;
            }
            k = k + 1;
        }
        let p = self.unset_positions[best];
        let i = p.row * 9 + p.col;
        proof {
            assert(pos_ok(p));
            lemma_pos_idx(p.row as int, p.col as int);
            assert(open_at(self.board@, i as int));
        }
        if bestcnt == 0 {
            proof {
                assert(cand_count_at(self.board@, i as int) == 0);
            }
            return Err(SudokuError::NoValidSudokuTile);
        }
        proof {
            assert forall|i2: int|
                0 <= i2 < 81 && open_at(self.board@, i2) implies #[trigger] cand_count_at(
                self.board@,
                i2,
            ) >= bestcnt by {
                assert(self.in_open_list(i2));
                let k2 = choose|k2: int|
                    0 <= k2 < self.unset_positions@.len() && pos_idx(
                        #[trigger] self.unset_positions@[k2],
                    ) == i2;
                assert(cand_count_at(self.board@, pos_idx(self.unset_positions@[k2])) >= bestcnt);
            }
        }
        match self.board[i] {
            SudokuTileState::Committed(_) => {
                proof {
                    assert(false);
                }
                Err(SudokuError::BoardHashMapDisagreement)
            },
            SudokuTileState::Open(s) => {
                let t = s.nth(gen_below(bestcnt));
                proof {
                    assert(cand_at(self.board@, i as int, tile_idx(t)));
                }
                self.commit(p, t);
                proof {
                    assert(cell_val(self.board@, i as int) == Some(tile_idx(t)));
                    assert(open_at(old(self).board@, i as int));
                    assert(cand_at(old(self).board@, i as int, tile_idx(t)));
                    assert(forall|j: int|
                        0 <= j < 81 && open_at(old(self).board@, j) ==> #[trigger] cand_count_at(
                            old(self).board@,
                            j,
                        ) >= cand_count_at(old(self).board@, i as int));
                }
                Ok(t)
            },
        }
    }
}

} // verus!
