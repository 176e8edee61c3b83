//! A candidate set: the values still legal for an open cell, held as a
//! nine-bit set over the tile indices.

use vstd::prelude::*;

use crate::tile::SudokuTile;
use crate::tile::tile_idx;

verus! {

/// Whether bit `k` of `bits` is set.
pub open spec fn cs_has(bits: u16, k: int) -> bool {
    bits & (1u16 << (k as u16)) != 0
}

/// How many of the bits below `n` are set.
pub open spec fn cs_count_upto(bits: u16, n: int) -> int
    decreases n,
{
    if n <= 0 {
        0
    } else {
        cs_count_upto(bits, n - 1) + if cs_has(bits, n - 1) {
            1int
        } else {
            0int
        }
    }
}

/// How many of the nine candidate bits are set.
pub open spec fn cs_count(bits: u16) -> int {
    cs_count_upto(bits, 9)
}

/// A set of candidate tiles with O(1) membership test and removal.
#[derive(Clone, Copy, Debug, PartialEq, Eq, Structural)]
pub struct CandidateSet {
    pub bits: u16,
}

impl CandidateSet {
    /// Only the nine candidate bits may be set.
    pub open spec fn wf(self) -> bool {
        self.bits < 512
    }

    /// Whether the tile with index `k` is a member.
    pub open spec fn has(self, k: int) -> bool {
        cs_has(self.bits, k)
    }

    /// The number of members.
    pub open spec fn count(self) -> int {
        cs_count(self.bits)
    }

    /// The set holding all nine tiles.
    pub fn all() -> (s: CandidateSet)
        ensures
            s.wf(),
            forall|k: int| 0 <= k < 9 ==> s.has(k),
            s.count() == 9,
    {
        let s = CandidateSet { bits: 511 };
        proof {
            assert(forall|j: u16| j < 9 ==> 511u16 & (1u16 << j) != 0) by (bit_vector);
            assert forall|k: int| 0 <= k < 9 implies s.has(k) by {
                assert(511u16 & (1u16 << (k as u16)) != 0);
            }
            lemma_full_count(511, 9);
        }
        s
    }

    /// The set holding no tile.
    pub fn empty() -> (s: CandidateSet)
        ensures
            s.wf(),
            forall|k: int| !s.has(k),
            s.count() == 0,
    {
        let s = CandidateSet { bits: 0 };
        proof {
            assert(forall|j: u16| 0u16 & (1u16 << j) == 0) by (bit_vector);
            assert forall|k: int| !s.has(k) by {
                assert(0u16 & (1u16 << (k as u16)) == 0);
            }
            lemma_empty_count(0, 9);
        }
        s
    }

    /// Whether `t` is a member.
    pub fn contains(self, t: SudokuTile) -> (r: bool)
        ensures
            r == self.has(tile_idx(t)),
    {
        let i = t.index();
        proof {
            assert((i as u16) == (tile_idx(t) as u16));
        }
        self.bits & (1u16 << i) != 0
    }

    /// The set with `t` excluded; no change when `t` is already absent.
    pub fn remove(self, t: SudokuTile) -> (s: CandidateSet)
        requires
            self.wf(),
        ensures
            s.wf(),
            forall|k: int| 0 <= k < 9 ==> (s.has(k) <==> self.has(k) && k != tile_idx(t)),
    {
        let i = t.index();
        let s = CandidateSet { bits: self.bits & !(1u16 << i) };
        proof {
            let b = self.bits;
            assert(b < 512 ==> (b & !(1u16 << i)) < 512) by (bit_vector);
            assert(forall|j: u16, m: u16|
                j < 9 && m < 9 ==> (((b & !(1u16 << m)) & (1u16 << j) != 0) <==> (b & (1u16 << j)
                    != 0 && j != m))) by (bit_vector);
            assert forall|k: int| 0 <= k < 9 implies (s.has(k) <==> self.has(k) && k != tile_idx(
                t,
            )) by {
                let j = k as u16;
                assert(((b & !(1u16 << i)) & (1u16 << j) != 0) <==> (b & (1u16 << j) != 0 && j
                    != i));
            }
        }
        s
    }

    /// The number of members.
    pub fn count_members(self) -> (n: usize)
        ensures
            n == self.count(),
    {
        let mut n: usize = 0;
        let mut k: u16 = 0;
        while k < 9
            invariant
                k <= 9,
                n == cs_count_upto(self.bits, k as int),
                n <= k,
            decreases 9 - k,
        {
            if self.bits & (1u16 << k) != 0 {
                n = n + 1;
            }
            k = k + 1;
        }
        n
    }

    /// The member with exactly `i` members below it, counting by tile index.
    pub fn nth(self, i: usize) -> (t: SudokuTile)
        requires
            i < self.count(),
        ensures
            self.has(tile_idx(t)),
            cs_count_upto(self.bits, tile_idx(t)) == i,
    {
        let mut n: usize = 0;
        let mut k: u16 = 0;
        while k < 9
            invariant
                k <= 9,
                n == cs_count_upto(self.bits, k as int),
                n <= i < self.count(),
            decreases 9 - k,
        {
            if self.bits & (1u16 << k) != 0 {
                if n == i {
                    return SudokuTile::from_index(k);
                }
                n = n + 1;
            }
            k = k + 1;
        }
        proof {
            assert(false);
        }
        SudokuTile::One
    }

    /// The single member of a one-member set.
    pub fn only_member(self) -> (t: SudokuTile)
        requires
            self.count() == 1,
        ensures
            self.has(tile_idx(t)),
            forall|k: int| 0 <= k < 9 && self.has(k) ==> k == tile_idx(t),
    {
        let t = self.nth(0);
        proof {
            assert forall|k: int| 0 <= k < 9 && self.has(k) implies k == tile_idx(t) by {
                if k != tile_idx(t) {
                    lemma_two_members_count(self.bits, k, tile_idx(t));
                }
            }
        }
        t
    }
}

/// A count over a prefix is between zero and the prefix length.
pub proof fn lemma_count_upto_bounds(bits: u16, n: int)
    requires
        0 <= n,
    ensures
        0 <= cs_count_upto(bits, n) <= n,
    decreases n,
{
    if n > 0 {
        lemma_count_upto_bounds(bits, n - 1);
    }
}

/// Counting over a longer prefix never gives less.
pub proof fn lemma_count_upto_mono(bits: u16, m: int, n: int)
    requires
        0 <= m <= n,
    ensures
        cs_count_upto(bits, m) <= cs_count_upto(bits, n),
    decreases n,
{
    if m < n {
        lemma_count_upto_mono(bits, m, n - 1);
        lemma_count_upto_bounds(bits, n - 1);
    }
}

/// A member below the prefix end contributes one to the count.
pub proof fn lemma_member_counts(bits: u16, k: int, n: int)
    requires
        0 <= k < n,
        cs_has(bits, k),
    ensures
        cs_count_upto(bits, n) >= cs_count_upto(bits, k) + 1,
{
    lemma_count_upto_mono(bits, k + 1, n);
}

/// Two distinct members give a count of at least two.
pub proof fn lemma_two_members_count(bits: u16, k1: int, k2: int)
    requires
        0 <= k1 < 9,
        0 <= k2 < 9,
        k1 != k2,
        cs_has(bits, k1),
        cs_has(bits, k2),
    ensures
        cs_count(bits) >= 2,
{
    let lo = if k1 < k2 {
        k1
    } else {
        k2
    };
    let hi = if k1 < k2 {
        k2
    } else {
        k1
    };
    lemma_member_counts(bits, lo, hi);
    lemma_member_counts(bits, hi, 9);
    lemma_count_upto_bounds(bits, lo);
}

/// A set whose members all lie in another set counts no more than it.
pub proof fn lemma_subset_count(a: u16, b: u16, n: int)
    requires
        0 <= n,
        forall|k: int| 0 <= k < n && cs_has(a, k) ==> cs_has(b, k),
    ensures
        cs_count_upto(a, n) <= cs_count_upto(b, n),
    decreases n,
{
    if n > 0 {
        lemma_subset_count(a, b, n - 1);
    }
}

/// A set with every bit below `n` set counts exactly `n`.
proof fn lemma_full_count(bits: u16, n: int)
    requires
        0 <= n <= 9,
        forall|k: int| 0 <= k < n ==> cs_has(bits, k),
    ensures
        cs_count_upto(bits, n) == n,
    decreases n,
{
    if n > 0 {
        lemma_full_count(bits, n - 1);
    }
}

/// A set with no bit below `n` set counts zero.
proof fn lemma_empty_count(bits: u16, n: int)
    requires
        0 <= n,
        forall|k: int| 0 <= k < n ==> !cs_has(bits, k),
    ensures
        cs_count_upto(bits, n) == 0,
    decreases n,
{
    if n > 0 {
        lemma_empty_count(bits, n - 1);
    }
}

} // verus!
