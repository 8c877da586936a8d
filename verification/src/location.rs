//! The outcome of looking for the one place a digit can go.

use vstd::prelude::*;

verus! {

/// Where a search for "the only candidate position" ended: at a coordinate
/// (row, column), at no candidate at all, or at more than one.
#[derive(Clone, Copy, PartialEq, Eq, Structural, Debug)]
pub enum Location {
    Valid(usize, usize),
    Invalid,
    Duplicate,
}

impl Location {
    /// The coordinate lies on a grid of `n` rows and `n` columns.
    pub open spec fn in_grid(self, n: nat) -> bool {
        self matches Location::Valid(r, c) && r < n && c < n
    }
}

} // verus!
