//! Walking the coordinates of a set.

use vstd::prelude::*;
use crate::digit_set::DigitSet;
use crate::geometry::{coordinate, lemma_box_coordinate, lemma_flat_onto};
use crate::location::Location;

verus! {

/// An iterator over the indices (in format (row: usize, col: usize)) of the given set.
///
/// A row is walked left to right and a column top to bottom; a box and the
/// whole grid are walked row by row.
#[derive(Clone, Copy, Debug)]
pub struct IndexIterator {
    pub set: DigitSet,
    pub rows_per_box: usize,
    pub cols_per_box: usize,
    /// How many coordinates have been handed out.
    pub current: usize,
}

impl IndexIterator {
    /// The set is one of a grid with boxes of the iterator's shape, and is
    /// small enough to be counted.
    pub open spec fn wf(self) -> bool {
        &&& self.set.fits((self.rows_per_box * self.cols_per_box) as nat)
        &&& self.set.spec_size() <= usize::MAX
    }

    /// The coordinate that the iterator hands out `k` calls from its start.
    pub open spec fn coordinate(self, k: int) -> Location {
        let (r, c) = coordinate(self.set, self.rows_per_box as int, self.cols_per_box as int, k);
        Location::Valid(r as usize, c as usize)
    }

    /// The coordinates of `set` on a grid whose boxes have `rows_per_box`
    /// rows and `cols_per_box` columns, from the first one on.
    pub fn new(set: DigitSet, rows_per_box: usize, cols_per_box: usize) -> (it: Self)
        ensures
            it == (IndexIterator { set, rows_per_box, cols_per_box, current: 0 }),
    {
        Self { set, rows_per_box, cols_per_box, current: 0 }
    }

    /// Hands out the next coordinate of the set, or `None` once the set is
    /// exhausted.
    pub fn next(&mut self) -> (r: Option<Location>)
        requires
            old(self).wf(),
        ensures
            old(self).current < old(self).set.spec_size() ==> r == Some(
                old(self).coordinate(old(self).current as int),
            ) && *final(self) == (IndexIterator { current: (old(self).current + 1) as usize, ..*old(self) })
                && r.unwrap().in_grid(old(self).set.side()),
            old(self).current >= old(self).set.spec_size() ==> r is None && *final(self) == *old(
                self,
            ),
    {
        if self.current >= self.set.size() {
            None
        } else {
            let k = self.current;
            let output = match self.set {
                DigitSet::Row(_, row) => Location::Valid(row, k),
                DigitSet::Col(_, col) => Location::Valid(k, col),
                DigitSet::Box(_, box_index) => {
                    proof {
                        lemma_box_coordinate(
                            self.rows_per_box as int,
                            self.cols_per_box as int,
                            box_index as int,
                            k as int,
                        );
                    }
                    let row = (box_index / self.rows_per_box) * self.rows_per_box + k
                        / self.cols_per_box;
                    let col = (box_index % self.rows_per_box) * self.cols_per_box + k
                        % self.cols_per_box;
                    Location::Valid(row, col)
                },
                DigitSet::All(n) => {
                    proof {
                        lemma_flat_onto(n as int, k as int);
                    }
                    Location::Valid(k / n, k % n)
                },
            };
            self.current = k + 1;
            Some(output)
        }
    }
}

} // verus!
