//! A second rendering of the nine values, keyed by their 3-value band: the
//! grouping that the 3x3 boxes induce on rows and columns.

use vstd::prelude::*;

verus! {

/// One of the nine values, used as a row or column coordinate.
#[derive(Clone, Copy, Debug, Hash, PartialEq, Eq, PartialOrd, Ord, Structural)]
pub enum Value {
    One,
    Two,
    Three,
    Four,
    Five,
    Six,
    Seven,
    Eight,
    Nine,
}

/// The zero-based index of a value.
pub open spec fn val_idx(v: Value) -> int {
    match v {
        Value::One => 0,
        Value::Two => 1,
        Value::Three => 2,
        Value::Four => 3,
        Value::Five => 4,
        Value::Six => 5,
        Value::Seven => 6,
        Value::Eight => 7,
        Value::Nine => 8,
    }
}

impl Value {
    /// The three values of the band holding `value`: the first, middle, or
    /// last third of the nine values, as the 3x3 boxes group them.
    pub fn get_box(value: Value) -> (r: [Value; 3])
        ensures
            forall|m: int| 0 <= m < 3 ==> val_idx(r@[m]) == (val_idx(value) / 3) * 3 + m,
    {
        let idx = match value {
            Value::One => 0u8,
            Value::Two => 1,
            Value::Three => 2,
            Value::Four => 3,
            Value::Five => 4,
            Value::Six => 5,
            Value::Seven => 6,
            Value::Eight => 7,
            Value::Nine => 8,
        };
        if idx < 3 {
            [Value::One, Value::Two, Value::Three]
        } else if idx < 6 {
            [Value::Four, Value::Five, Value::Six]
        } else {
            [Value::Seven, Value::Eight, Value::Nine]
        }
    }
}

} // verus!
