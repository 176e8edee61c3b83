//! The nine values a cell can take, and the errors a solving step can report.

use vstd::prelude::*;

verus! {

/// One of the nine symbols a cell can hold.
#[derive(Clone, Copy, Debug, PartialEq, Eq, Structural)]
pub enum SudokuTile {
    One,
    Two,
    Three,
    Four,
    Five,
    Six,
    Seven,
    Eight,
    Nine,
}

/// What a single solving step can report instead of a committed tile.
#[derive(Clone, Copy, Debug, PartialEq, Eq, Structural)]
pub enum SudokuError {
    /// The chosen cell has no remaining candidate: a dead end.
    NoValidSudokuTile,
    /// The open-position bookkeeping and the cell states disagree.
    BoardHashMapDisagreement,
    /// No open position is left to fill.
    BoardFull,
}

/// The bit index of a tile, in `[0, 9)`.
pub open spec fn tile_idx(t: SudokuTile) -> int {
    match t {
        SudokuTile::One => 0,
        SudokuTile::Two => 1,
        SudokuTile::Three => 2,
        SudokuTile::Four => 3,
        SudokuTile::Five => 4,
        SudokuTile::Six => 5,
        SudokuTile::Seven => 6,
        SudokuTile::Eight => 7,
        SudokuTile::Nine => 8,
    }
}

impl SudokuTile {
    /// The bit index of this tile, in `[0, 9)`.
    pub fn index(self) -> (i: u16)
        ensures
            i == tile_idx(self),
    {
        match self {
            SudokuTile::One => 0,
            SudokuTile::Two => 1,
            SudokuTile::Three => 2,
            SudokuTile::Four => 3,
            SudokuTile::Five => 4,
            SudokuTile::Six => 5,
            SudokuTile::Seven => 6,
            SudokuTile::Eight => 7,
            SudokuTile::Nine => 8,
        }
    }

    /// The tile with the given bit index.
    pub fn from_index(i: u16) -> (t: SudokuTile)
        requires
            i < 9,
        ensures
            tile_idx(t) == i,
    {
        match i {
            0 => SudokuTile::One,
            1 => SudokuTile::Two,
            2 => SudokuTile::Three,
            3 => SudokuTile::Four,
            4 => SudokuTile::Five,
            5 => SudokuTile::Six,
            6 => SudokuTile::Seven,
            7 => SudokuTile::Eight,
            _ => SudokuTile::Nine,
        }
    }

    /// The numeric code of this tile, in `[1, 9]`.
    pub fn to_i32(self) -> (v: i32)
        ensures
            v == tile_idx(self) + 1,
    {
        match self {
            SudokuTile::One => 1,
            SudokuTile::Two => 2,
            SudokuTile::Three => 3,
            SudokuTile::Four => 4,
            SudokuTile::Five => 5,
            SudokuTile::Six => 6,
            SudokuTile::Seven => 7,
            SudokuTile::Eight => 8,
            SudokuTile::Nine => 9,
        }
    }

    /// The tile with the given numeric code, or `None` when the code is not
    /// in `[1, 9]`.
    pub fn from_i32(v: i32) -> (t: Option<SudokuTile>)
        ensures
            1 <= v <= 9 ==> (t matches Some(x) && tile_idx(x) == v - 1),
            !(1 <= v <= 9) ==> t is None,
    {
        match v {
            1 => Some(SudokuTile::One),
            2 => Some(SudokuTile::Two),
            3 => Some(SudokuTile::Three),
            4 => Some(SudokuTile::Four),
            5 => Some(SudokuTile::Five),
            6 => Some(SudokuTile::Six),
            7 => Some(SudokuTile::Seven),
            8 => Some(SudokuTile::Eight),
            9 => Some(SudokuTile::Nine),
            _ => None,
        }
    }
}

/// The tile with the bit index `k`, for `k` in `[0, 9)`.
pub open spec fn tile_of_idx(k: int) -> SudokuTile {
    if k == 0 {
        SudokuTile::One
    } else if k == 1 {
        SudokuTile::Two
    } else if k == 2 {
        SudokuTile::Three
    } else if k == 3 {
        SudokuTile::Four
    } else if k == 4 {
        SudokuTile::Five
    } else if k == 5 {
        SudokuTile::Six
    } else if k == 6 {
        SudokuTile::Seven
    } else if k == 7 {
        SudokuTile::Eight
    } else {
        SudokuTile::Nine
    }
}

/// `tile_of_idx` inverts `tile_idx` on the nine bit indices.
pub proof fn lemma_tile_of_idx(k: int)
    requires
        0 <= k < 9,
    ensures
        tile_idx(tile_of_idx(k)) == k,
{
}

/// Distinct tiles have distinct bit indices.
pub proof fn lemma_tile_idx_injective(a: SudokuTile, b: SudokuTile)
    requires
        tile_idx(a) == tile_idx(b),
    ensures
        a == b,
{
}

} // verus!
