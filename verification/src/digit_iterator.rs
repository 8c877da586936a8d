//! Walking the cells of a set.

use vstd::prelude::*;
use crate::board::Board;
use crate::cell::Cell;
use crate::digit_set::DigitSet;
use crate::index_iterator::IndexIterator;

verus! {

/// Wrapper for an IndexIterator which returns references to `Cell`s instead of indices.
pub struct DigitIterator<'a> {
    pub board: &'a Board,
    pub index_iterator: IndexIterator,
}

impl<'a> DigitIterator<'a> {
    /// The iterator walks a set of its own board.
    pub open spec fn wf(self) -> bool {
        &&& self.board@.wf()
        &&& self.index_iterator.wf()
        &&& self.index_iterator.rows_per_box == self.board@.rows_per_box
        &&& self.index_iterator.cols_per_box == self.board@.cols_per_box
    }

    /// Creates a new DigitIterator containing a new IndexIterator over the specified board and set.
    ///
    /// The shape of the boxes is the board's; `cells_per_set` is kept for
    /// callers that pass it and is not read.
    pub fn new(board: &'a Board, set: DigitSet, cells_per_set: usize) -> (it: Self)
        ensures
            it.board == board,
            it.index_iterator == board.spec_iter_indices(set),
    {
        Self { board, index_iterator: board.iter_indices(set) }
    }

    /// Hands out the next cell of the set, or `None` once the set is
    /// exhausted.
    pub fn next(&mut self) -> (r: Option<&'a Cell>)
        requires
            old(self).wf(),
        ensures
            final(self).board == old(self).board,
            old(self).index_iterator.current < old(self).index_iterator.set.spec_size() ==> {
                &&& r matches Some(cell)
                &&& cell@ == old(self).board@.at(
                    old(self).index_iterator.set,
                    old(self).index_iterator.current as int,
                )
                &&& final(self).index_iterator == (IndexIterator {
                    current: (old(self).index_iterator.current + 1) as usize,
                    ..old(self).index_iterator
                })
            },
            old(self).index_iterator.current >= old(self).index_iterator.set.spec_size() ==> r
                is None && final(self).index_iterator == old(self).index_iterator,
    {
        let ghost k = self.index_iterator.current as int;
        match self.index_iterator.next() {
            Some(location) => {
                proof {
                    crate::geometry::lemma_coordinate_bounds(
                        self.index_iterator.set,
                        self.board@.rows_per_box as int,
                        self.board@.cols_per_box as int,
                        k,
                    );
                }
                Some(self.board.get(location))
            },
            None => None,
        }
    }
}

} // verus!
