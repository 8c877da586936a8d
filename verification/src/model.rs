//! The mathematical model of a board, and what it means to complete one.

use vstd::prelude::*;
use crate::boolean_operation::BooleanOperation;
use crate::cell::CellView;
use crate::digit_set::DigitSet;
use crate::geometry::{cell_number, coordinate, flat, lemma_cell_number_injective,
    lemma_coordinate_bounds};

verus! {

/// The mathematical content of a board: the shape of its boxes and the state
/// of its cells, row by row.
pub struct BoardView {
    pub rows_per_box: nat,
    pub cols_per_box: nat,
    /// The number of cells per row, column and box, and of digits.
    pub cells_per_set: nat,
    pub cells: Seq<CellView>,
}

/// The `j`-th of the `3 * n` regions of a grid of `n` cells per row: first
/// the rows, then the columns, then the boxes.
pub open spec fn nth_region(n: usize, j: int) -> DigitSet {
    if j < n {
        DigitSet::Row(n, j as usize)
    } else if j < 2 * n {
        DigitSet::Col(n, (j - n) as usize)
    } else {
        DigitSet::Box(n, (j - 2 * n) as usize)
    }
}

/// Where a pass over the regions stands after the call on its `j`-th region
/// has returned `v`, if the fold of the results so far was `acc`: at the
/// next region, or at the end (`3 * n`) if the call reported an unsolvable
/// board or a short-circuiting fold is decided.
pub open spec fn pass_stage(op: BooleanOperation, n: usize, j: int, acc: bool, v: Option<bool>) -> int {
    match v {
        None => 3 * n,
        Some(x) => if op.spec_is_lazy() && op.spec_combine(acc, x) != op.spec_initial() {
            3 * n
        } else {
            j + 1
        },
    }
}

/// The fold of the results of a pass after a call has returned `v`, if it
/// was `acc` before: `None` once a call has reported an unsolvable board.
pub open spec fn pass_value(op: BooleanOperation, acc: bool, v: Option<bool>) -> Option<bool> {
    match v {
        None => None,
        Some(x) => Some(op.spec_combine(acc, x)),
    }
}

/// The sum of the numbers of digits that the cells still allow.
pub open spec fn total_count(cells: Seq<CellView>) -> nat
    decreases cells.len(),
{
    if cells.len() == 0 {
        0
    } else {
        total_count(cells.drop_last()) + cells.last().count()
    }
}

impl BoardView {
    /// The box shape and the cells agree, the cells can be counted, and
    /// every cell is well-formed.
    pub open spec fn wf(self) -> bool {
        &&& self.cells_per_set == self.rows_per_box * self.cols_per_box
        &&& self.cells.len() == self.cells_per_set * self.cells_per_set
        &&& self.cells.len() <= usize::MAX
        &&& forall|i: int|
            0 <= i < self.cells.len() ==> (#[trigger] self.cells[i]).wf(self.cells_per_set)
    }

    /// The two boards have the same shape.
    pub open spec fn same_shape(self, other: BoardView) -> bool {
        &&& self.rows_per_box == other.rows_per_box
        &&& self.cols_per_box == other.cols_per_box
        &&& self.cells_per_set == other.cells_per_set
        &&& self.cells.len() == other.cells.len()
    }

    /// `set` is a row, a column or a box of this board, or the whole of it.
    pub open spec fn has_set(self, set: DigitSet) -> bool {
        set.fits(self.cells_per_set)
    }

    /// `set` is a row, a column or a box of this board.
    pub open spec fn has_region(self, set: DigitSet) -> bool {
        set.is_region() && set.fits(self.cells_per_set)
    }

    /// The number of the `k`-th cell of `set`.
    pub open spec fn number(self, set: DigitSet, k: int) -> int {
        cell_number(set, self.rows_per_box as int, self.cols_per_box as int, k)
    }

    /// The `k`-th cell of `set`.
    pub open spec fn at(self, set: DigitSet, k: int) -> CellView {
        self.cells[self.number(set, k)]
    }

    /// The cell in row `r` and column `c`.
    pub open spec fn cell(self, r: int, c: int) -> CellView {
        self.cells[flat(self.cells_per_set as int, r, c)]
    }

    /// This board with the cell in row `r` and column `c` replaced.
    pub open spec fn with_cell(self, r: int, c: int, cell: CellView) -> BoardView {
        BoardView { cells: self.cells.update(flat(self.cells_per_set as int, r, c), cell), ..self }
    }

    /// This board with the cell numbered `i` replaced.
    pub open spec fn with_tile(self, i: int, cell: CellView) -> BoardView {
        BoardView { cells: self.cells.update(i, cell), ..self }
    }

    /// The board of the given box shape on which every cell allows every digit.
    pub open spec fn blank(rows_per_box: nat, cols_per_box: nat) -> BoardView {
        let n = rows_per_box * cols_per_box;
        BoardView {
            rows_per_box,
            cols_per_box,
            cells_per_set: n,
            cells: Seq::new(n * n, |i: int| CellView::blank(n)),
        }
    }

    /// The sum of the numbers of digits that the cells still allow.
    pub open spec fn total(self) -> nat {
        total_count(self.cells)
    }

    /// This board allows nothing that `other` forbids.
    pub open spec fn within(self, other: BoardView) -> bool {
        &&& self.same_shape(other)
        &&& forall|i: int|
            0 <= i < self.cells.len() ==> (#[trigger] self.cells[i]).within(other.cells[i])
    }

    /// Every cell that `old` had solved is in this board as it was.
    pub open spec fn keeps_solved(self, old: BoardView) -> bool {
        forall|i: int|
            0 <= i < old.cells.len() && (#[trigger] old.cells[i]).solved ==> self.cells[i]
                == old.cells[i]
    }

    /// Some cell that `old` had unsolved is solved in this board.
    pub open spec fn newly_solved(self, old: BoardView) -> bool {
        exists|i: int|
            0 <= i < old.cells.len() && !(#[trigger] old.cells[i]).solved && self.cells[i].solved
    }

    /// Every settled board that allows no more than `old` does allows no
    /// more than this board does: nothing that such a board allows has
    /// been taken from `old`.
    pub open spec fn keeps_settled(self, old: BoardView) -> bool {
        forall|other: BoardView|
            #![trigger other.within(old)]
            other.settled() && other.within(old) ==> other.within(self)
    }

    /// This board is what propagation may make of `old`: a well-formed
    /// board of the same shape that allows no more than `old` does, has
    /// kept the solved cells of `old`, has the completions of `old`, and
    /// allows what every settled board within `old` allows.
    pub open spec fn propagated_from(self, old: BoardView) -> bool {
        &&& self.wf()
        &&& self.within(old)
        &&& self.keeps_solved(old)
        &&& old.same_completions(self)
        &&& self.keeps_settled(old)
    }

    // Full grids

    /// `g` gives every cell of a grid of this shape a digit, and no row,
    /// column or box holds a digit twice.
    pub open spec fn valid_grid(self, g: Seq<int>) -> bool {
        &&& g.len() == self.cells.len()
        &&& forall|i: int| 0 <= i < g.len() ==> 0 <= #[trigger] g[i] < self.cells_per_set
        &&& forall|set: DigitSet, k1: int, k2: int|
            self.has_region(set) && 0 <= k1 < k2 < self.cells_per_set ==> g[#[trigger] self.number(
                set,
                k1,
            )] != g[#[trigger] self.number(set, k2)]
    }

    /// Every cell allows the digit that `g` gives it.
    pub open spec fn admits(self, g: Seq<int>) -> bool {
        forall|i: int| 0 <= i < self.cells.len() ==> (#[trigger] self.cells[i]).allows(g[i])
    }

    /// `g` is a completion of this board: a valid grid that the board admits.
    pub open spec fn completed_by(self, g: Seq<int>) -> bool {
        self.valid_grid(g) && self.admits(g)
    }

    /// The board has a completion.
    pub open spec fn solvable(self) -> bool {
        exists|g: Seq<int>| self.completed_by(g)
    }

    /// The two boards have the same completions.
    pub open spec fn same_completions(self, other: BoardView) -> bool {
        forall|g: Seq<int>| self.completed_by(g) <==> other.completed_by(g)
    }

    /// The digits that the cells hold, for a board whose cells each have one
    /// digit left.
    pub open spec fn grid(self) -> Seq<int> {
        Seq::new(self.cells.len(), |i: int| self.cells[i].digit())
    }

    // Regions

    /// Every cell of the region has one digit left, and no two hold the same.
    pub open spec fn region_solved(self, set: DigitSet) -> bool {
        &&& forall|k: int| 0 <= k < self.cells_per_set ==> (#[trigger] self.at(set, k)).determined()
        &&& forall|k1: int, k2: int|
            0 <= k1 < k2 < self.cells_per_set ==> (#[trigger] self.at(set, k1)).digit() != (
            #[trigger] self.at(set, k2)).digit()
    }

    /// Two cells of the region with one digit left hold the same digit.
    pub open spec fn region_contradicts(self, set: DigitSet) -> bool {
        exists|k1: int, k2: int|
            0 <= k1 < k2 < self.cells_per_set && (#[trigger] self.at(set, k1)).determined() && (
            #[trigger] self.at(set, k2)).determined() && self.at(set, k1).digit() == self.at(
                set,
                k2,
            ).digit()
    }

    /// Every row, column and box is solved.
    pub open spec fn solved(self) -> bool {
        forall|set: DigitSet| #[trigger] self.has_region(set) ==> self.region_solved(set)
    }

    /// Some row, column or box holds a digit twice.
    pub open spec fn contradicts(self) -> bool {
        exists|set: DigitSet| #[trigger] self.has_region(set) && self.region_contradicts(set)
    }

    /// Some cell of the region with one digit left holds `d`.
    pub open spec fn used(self, set: DigitSet, d: int) -> bool {
        exists|k: int|
            0 <= k < self.cells_per_set && (#[trigger] self.at(set, k)).determined() && self.at(
                set,
                k,
            ).digit() == d
    }

    /// No cell of the region allows `d`.
    pub open spec fn homeless(self, set: DigitSet, d: int) -> bool {
        forall|k: int| 0 <= k < self.cells_per_set ==> !(#[trigger] self.at(set, k)).allows(d)
    }

    /// The `k`-th cell of the region is the only one that allows `d`.
    pub open spec fn only_home(self, set: DigitSet, d: int, k: int) -> bool {
        &&& 0 <= k < self.cells_per_set
        &&& self.at(set, k).allows(d)
        &&& forall|j: int|
            0 <= j < self.cells_per_set && j != k ==> !(#[trigger] self.at(set, j)).allows(d)
    }

    /// No cell of the region is empty, and no unsolved one allows a digit
    /// that a solved one holds.
    pub open spec fn region_reduced(self, set: DigitSet) -> bool {
        forall|k: int|
            0 <= k < self.cells_per_set ==> {
                let cell = #[trigger] self.at(set, k);
                &&& cell.count() > 0
                &&& !cell.determined() ==> forall|d: int|
                    #![trigger self.used(set, d)]
                    cell.allows(d) ==> !self.used(set, d)
            }
    }

    /// Digit `d` has a home in the region, and if it has one home only, it
    /// is what that cell holds.
    pub open spec fn digit_settled(self, set: DigitSet, d: int) -> bool {
        &&& !self.homeless(set, d)
        &&& forall|k: int|
            #![trigger self.at(set, k)]
            self.only_home(set, d, k) ==> self.at(set, k).determined()
    }

    /// Every digit has a home in the region, and a digit with one home only
    /// is what that cell holds.
    pub open spec fn region_singles_placed(self, set: DigitSet) -> bool {
        forall|d: int| 0 <= d < self.cells_per_set ==> #[trigger] self.digit_settled(set, d)
    }

    /// For every digit, whether a cell of the region with one digit left
    /// holds it.
    pub open spec fn used_flags(self, set: DigitSet) -> Seq<bool> {
        Seq::new(self.cells_per_set, |d: int| self.used(set, d))
    }

    /// The `k`-th cell of the region without the digits that the region has
    /// used.
    pub open spec fn reduced_at(self, set: DigitSet, k: int) -> CellView {
        self.at(set, k).without(self.used_flags(set))
    }

    /// The cell numbered `i` is none of the region.
    pub open spec fn outside(self, set: DigitSet, i: int) -> bool {
        forall|k: int| 0 <= k < self.cells_per_set ==> #[trigger] self.number(set, k) != i
    }

    /// Digit `e` cannot go into the cell numbered `i`, because another cell
    /// of a region of that cell holds it.
    pub open spec fn excluded(self, i: int, e: int) -> bool {
        exists|set: DigitSet, k: int, j: int|
            #![trigger self.number(set, k), self.at(set, j)]
            self.has_region(set) && 0 <= k < self.cells_per_set && 0 <= j < self.cells_per_set
                && k != j && self.number(set, k) == i && self.at(set, j).determined() && self.at(
                set,
                j,
            ).digit() == e
    }

    /// A cell allows no digit, or a digit has no home in some region.
    pub open spec fn dead(self) -> bool {
        ||| exists|i: int| 0 <= i < self.cells.len() && (#[trigger] self.cells[i]).count() == 0
        ||| exists|set: DigitSet, d: int|
            self.has_region(set) && 0 <= d < self.cells_per_set && #[trigger] self.homeless(set, d)
    }

    /// Propagation has nothing left to do: every region is reduced and has
    /// its single homes placed.
    pub open spec fn stable(self) -> bool {
        forall|set: DigitSet|
            #[trigger] self.has_region(set) ==> self.region_reduced(set)
                && self.region_singles_placed(set)
    }

    /// A well-formed board on which propagation has nothing left to do, and
    /// no row, column or box of which holds a digit twice.
    pub open spec fn settled(self) -> bool {
        self.wf() && self.stable() && !self.contradicts()
    }
}

/// Every region of a grid is one of its `3 * n` regions, and the other way round.
pub proof fn lemma_nth_region(n: usize, set: DigitSet)
    requires
        3 * n <= usize::MAX,
    ensures
        set.is_region() && set.fits(n as nat) <==> exists|j: int|
            0 <= j < 3 * n && #[trigger] nth_region(n, j) == set,
{
    if set.is_region() && set.fits(n as nat) {
        let j: int = match set {
            DigitSet::Row(_, r) => r as int,
            DigitSet::Col(_, c) => n + c,
            DigitSet::Box(_, b) => 2 * n + b,
            DigitSet::All(_) => 0,
        };
        assert(nth_region(n, j) == set);
    }
}

/// The regions of a grid, numbered, are regions of the grid.
pub proof fn lemma_nth_region_fits(n: usize, j: int)
    requires
        0 <= j < 3 * n,
    ensures
        nth_region(n, j).is_region(),
        nth_region(n, j).fits(n as nat),
{
}

impl BoardView {
    /// The side of a board is small.
    pub proof fn lemma_side(self)
        requires
            self.wf(),
        ensures
            self.cells_per_set <= usize::MAX,
            3 * self.cells_per_set <= usize::MAX,
    {
        let n = self.cells_per_set;
        assert(n <= usize::MAX && 3 * n <= usize::MAX) by (nonlinear_arith)
            requires
                n * n <= usize::MAX,
                usize::MAX >= 0xffff_ffff,
        ;
    }

    /// Where the `k`-th cell of a set lies.
    pub proof fn lemma_at(self, set: DigitSet, k: int)
        requires
            self.wf(),
            self.has_set(set),
            0 <= k < set.spec_size(),
        ensures
            ({
                let (r, c) = coordinate(set, self.rows_per_box as int, self.cols_per_box as int, k);
                &&& 0 <= r < self.cells_per_set
                &&& 0 <= c < self.cells_per_set
                &&& self.number(set, k) == flat(self.cells_per_set as int, r, c)
                &&& 0 <= self.number(set, k) < self.cells.len()
                &&& self.at(set, k) == self.cell(r, c)
                &&& self.at(set, k).wf(self.cells_per_set)
            }),
    {
        lemma_coordinate_bounds(set, self.rows_per_box as int, self.cols_per_box as int, k);
    }

    /// No two cells of a set are the same cell.
    pub proof fn lemma_distinct(self, set: DigitSet, k1: int, k2: int)
        requires
            self.wf(),
            self.has_set(set),
            0 <= k1 < set.spec_size(),
            0 <= k2 < set.spec_size(),
            k1 != k2,
        ensures
            self.number(set, k1) != self.number(set, k2),
    {
        if self.number(set, k1) == self.number(set, k2) {
            lemma_cell_number_injective(
                set,
                self.rows_per_box as int,
                self.cols_per_box as int,
                k1,
                k2,
            );
        }
    }
}

} // verus!
