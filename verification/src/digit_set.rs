//! The regions of a grid: its rows, columns and boxes, and the grid as a whole.

use vstd::prelude::*;

verus! {

/// A set of digits, either a set that must have the digits 1-9 once each or the whole board.
///
/// The first field of every variant is the number of cells per row of the
/// grid the set belongs to; the second, where there is one, says which row,
/// column or box is meant. Boxes are numbered row-major over the grid of
/// boxes.
#[derive(Clone, Copy, PartialEq, Eq, PartialOrd, Ord, Structural, Debug)]
pub enum DigitSet {
    Row(usize, usize),
    Col(usize, usize),
    Box(usize, usize),
    All(usize),
}

impl DigitSet {
    /// The number of cells per row of the grid this set belongs to.
    pub open spec fn side(self) -> nat {
        match self {
            DigitSet::Row(n, _) => n as nat,
            DigitSet::Col(n, _) => n as nat,
            DigitSet::Box(n, _) => n as nat,
            DigitSet::All(n) => n as nat,
        }
    }

    /// The number of cells the set covers.
    pub open spec fn spec_size(self) -> nat {
        match self {
            DigitSet::Row(n, _) => n as nat,
            DigitSet::Col(n, _) => n as nat,
            DigitSet::Box(n, _) => n as nat,
            DigitSet::All(n) => n as nat * n as nat,
        }
    }

    /// A row, column or box: a set that must hold every digit once.
    pub open spec fn is_region(self) -> bool {
        !(self is All)
    }

    /// The set names a row, column or box that a grid of `n` cells per row
    /// has, or is the whole of such a grid.
    pub open spec fn fits(self, n: nat) -> bool {
        match self {
            DigitSet::Row(m, j) => m == n && j < n,
            DigitSet::Col(m, j) => m == n && j < n,
            DigitSet::Box(m, j) => m == n && j < n,
            DigitSet::All(m) => m == n,
        }
    }

    /// The number of cells the set covers.
    pub fn size(&self) -> (r: usize)
        requires
            self.spec_size() <= usize::MAX,
        ensures
            r == self.spec_size(),
    {
        match self {
            Self::Row(size, _) => *size,
            Self::Col(size, _) => *size,
            Self::Box(size, _) => *size,
            Self::All(size) => *size * *size,
        }
    }
}

} // verus!
