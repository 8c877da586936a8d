//! Constraint propagation: taking used digits out of the cells of a region,
//! and giving a digit the only home it has left.

use vstd::prelude::*;
use crate::board::Board;
use crate::boolean_operation::BooleanOperation;
use crate::cell::{Cell, CellView};
use crate::digit_set::DigitSet;
use crate::index_iterator::IndexIterator;
use crate::location::Location;
use crate::model::{lemma_nth_region_fits, nth_region, pass_stage, pass_value, BoardView};

verus! {

impl BoardView {
    /// What follows for a board whose cells outside a region are as they
    /// were, and whose cells in the region are as they were or reduced.
    pub proof fn lemma_reduction(self, new: BoardView, set: DigitSet)
        requires
            self.wf(),
            self.has_region(set),
            new.same_shape(self),
            forall|i: int|
                0 <= i < self.cells.len() && self.outside(set, i) ==> #[trigger] new.cells[i]
                    == self.cells[i],
            forall|k: int|
                0 <= k < self.cells_per_set ==> #[trigger] new.at(set, k) == self.at(set, k)
                    || new.at(set, k) == self.reduced_at(set, k),
        ensures
            new.propagated_from(self),
    {
        let n = self.cells_per_set;
        assert forall|i: int| 0 <= i < self.cells.len() implies {
            &&& (#[trigger] new.cells[i]).wf(n)
            &&& new.cells[i].within(self.cells[i])
            &&& self.cells[i].solved ==> new.cells[i] == self.cells[i]
            &&& forall|e: int|
                self.cells[i].allows(e) && !new.cells[i].allows(e) ==> self.excluded(i, e)
        } by {
            assert(self.cells[i].wf(n));
            if !self.outside(set, i) {
                let k = choose|k: int| 0 <= k < n && #[trigger] self.number(set, k) == i;
                assert(new.at(set, k) == new.cells[i]);
                assert(self.at(set, k) == self.cells[i]);
                if new.cells[i] != self.cells[i] {
                    let cell = self.cells[i];
                    assert(new.cells[i] == cell.without(self.used_flags(set)));
                    assert forall|e: int| cell.allows(e) && !new.cells[i].allows(
                        e,
                    ) implies self.excluded(i, e) by {
                        assert(self.used(set, e));
                        let j = choose|j: int|
                            0 <= j < n && (#[trigger] self.at(set, j)).determined() && self.at(
                                set,
                                j,
                            ).digit() == e;
                        assert(self.number(set, k) == i && self.at(set, j).determined());
                    }
                }
            }
        }
        assert(new.within(self));
        new.lemma_exclusion_keeps_completions(self);
    }

    /// A region that has been reduced without solving a cell is reduced.
    pub proof fn lemma_reduction_done(self, new: BoardView, set: DigitSet)
        requires
            self.wf(),
            self.has_region(set),
            new.same_shape(self),
            forall|k: int|
                0 <= k < self.cells_per_set ==> #[trigger] new.at(set, k) == self.reduced_at(
                    set,
                    k,
                ),
            forall|k: int|
                0 <= k < self.cells_per_set ==> (#[trigger] self.reduced_at(set, k)).count() > 0,
            forall|k: int|
                0 <= k < self.cells_per_set && !self.at(set, k).determined() ==> !(
                #[trigger] self.reduced_at(set, k)).determined(),
        ensures
            new.region_reduced(set),
    {
        let n = self.cells_per_set;
        assert forall|k: int| 0 <= k < n implies {
            let cell = #[trigger] new.at(set, k);
            &&& cell.count() > 0
            &&& !cell.determined() ==> forall|d: int|
                #![trigger new.used(set, d)]
                cell.allows(d) ==> !new.used(set, d)
        } by {
            let cell = new.at(set, k);
            assert(cell == self.reduced_at(set, k));
            self.lemma_at(set, k);
            if !cell.determined() {
                assert(!self.at(set, k).determined());
                assert forall|d: int| cell.allows(d) implies !new.used(set, d) by {
                    assert(0 <= d < n);
                    assert(!self.used_flags(set)[d]);
                    assert(!self.used(set, d));
                    if new.used(set, d) {
                        let j = choose|j: int|
                            0 <= j < n && (#[trigger] new.at(set, j)).determined() && new.at(
                                set,
                                j,
                            ).digit() == d;
                        assert(new.at(set, j) == self.reduced_at(set, j));
                        assert(self.reduced_at(set, j).determined());
                        assert(self.at(set, j).determined());
                        assert(self.used(set, d));
                    }
                }
            }
        }
    }

    /// Reducing a reduced region changes nothing.
    pub proof fn lemma_reduced_is_fixed(self, set: DigitSet, k: int)
        requires
            self.wf(),
            self.has_region(set),
            self.region_reduced(set),
            0 <= k < self.cells_per_set,
        ensures
            self.reduced_at(set, k) == self.at(set, k),
            self.at(set, k).count() > 0,
    {
        self.lemma_side();
        self.lemma_at(set, k);
        let cell = self.at(set, k);
        assert(cell.count() > 0);
        if !cell.determined() {
            let reduced = cell.without(self.used_flags(set));
            assert(reduced.possibilities =~= cell.possibilities) by {
                assert forall|d: int| 0 <= d < cell.possibilities.len() implies reduced.possibilities[d]
                    == cell.possibilities[d] by {
                    if cell.allows(d) {
                        assert(!self.used(set, d));
                    }
                }
            }
        }
    }

    /// `d` is the lowest digit that is not settled in the region: it has no
    /// home there, or its only home is a cell that is not solved.
    pub open spec fn first_unsettled(self, set: DigitSet, d: int) -> bool {
        &&& 0 <= d < self.cells_per_set
        &&& !self.digit_settled(set, d)
        &&& forall|e: int| 0 <= e < d ==> #[trigger] self.digit_settled(set, e)
    }

    /// The reduction of the region empties one of its first `k` cells.
    pub open spec fn emptied_before(self, set: DigitSet, k: int) -> bool {
        exists|j: int| 0 <= j < k && (#[trigger] self.reduced_at(set, j)).count() == 0
    }

    /// What a pass that reduces every region knows at stage `j`, if it began
    /// on the board `self`.
    pub open spec fn reduce_pass(self) -> spec_fn(int, Option<bool>, BoardView) -> bool {
        |j: int, v: Option<bool>, b: BoardView|
            {
                &&& b.propagated_from(self)
                &&& v is None ==> !b.solvable() && b.dead()
                &&& v matches Some(progress) ==> progress == b.newly_solved(self)
                &&& v == Some(false) ==> forall|i: int|
                    0 <= i < j ==> b.region_reduced(
                        #[trigger] nth_region(self.cells_per_set as usize, i),
                    )
                &&& self.stable() ==> b == self && v == Some(false)
            }
    }

    /// A reduced region stays reduced while no cell is solved or emptied.
    pub proof fn lemma_reduced_kept(self, new: BoardView, set: DigitSet)
        requires
            self.wf(),
            new.wf(),
            self.has_region(set),
            self.region_reduced(set),
            new.within(self),
            new.keeps_solved(self),
            !new.newly_solved(self),
            forall|i: int|
                0 <= i < self.cells.len() && (#[trigger] self.cells[i]).count() > 0
                    ==> new.cells[i].count() > 0,
        ensures
            new.region_reduced(set),
    {
        let n = self.cells_per_set;
        assert forall|k: int| 0 <= k < n implies {
            let cell = #[trigger] new.at(set, k);
            &&& cell.count() > 0
            &&& !cell.determined() ==> forall|d: int|
                #![trigger new.used(set, d)]
                cell.allows(d) ==> !new.used(set, d)
        } by {
            self.lemma_at(set, k);
            new.lemma_at(set, k);
            let i = self.number(set, k);
            assert(self.at(set, k).count() > 0);
            assert(self.cells[i].count() > 0);
            let cell = new.at(set, k);
            if !cell.determined() {
                assert(!self.cells[i].solved);
                assert forall|d: int| cell.allows(d) implies !new.used(set, d) by {
                    assert(new.cells[i].within(self.cells[i]));
                    assert(self.at(set, k).allows(d));
                    if new.used(set, d) {
                        let j = choose|j: int|
                            0 <= j < n && (#[trigger] new.at(set, j)).determined() && new.at(
                                set,
                                j,
                            ).digit() == d;
                        self.lemma_at(set, j);
                        new.lemma_at(set, j);
                        let x = self.number(set, j);
                        assert(new.cells[x].solved);
                        assert(self.cells[x].solved);
                        assert(new.cells[x] == self.cells[x]);
                        assert(self.at(set, j).determined());
                        assert(self.used(set, d));
                    }
                }
            }
        }
    }
}

impl Board {
    /// Remove possibilities from the set based on solved digits
    ///
    /// Every unsolved cell of the region loses the digits that the solved
    /// cells of the region hold. The call stops with `None` at the first
    /// cell that is left with no digit, and leaves the cells behind it as
    /// they were; otherwise it says whether a cell has become solved.
    pub fn reduce_possibilities(&mut self, set: DigitSet) -> (r: Option<bool>)
        requires
            old(self)@.wf(),
            old(self)@.has_region(set),
        ensures
            final(self)@.wf(),
            final(self)@.same_shape(old(self)@),
            forall|i: int|
                0 <= i < old(self)@.cells.len() && old(self)@.outside(set, i)
                    ==> #[trigger] final(self)@.cells[i] == old(self)@.cells[i],
            forall|k: int|
                0 <= k < old(self)@.cells_per_set ==> #[trigger] final(self)@.at(set, k) == if old(
                    self,
                )@.emptied_before(set, k) {
                    old(self)@.at(set, k)
                } else {
                    old(self)@.reduced_at(set, k)
                },
            r is None <==> exists|k: int|
                0 <= k < old(self)@.cells_per_set && (#[trigger] old(self)@.reduced_at(
                    set,
                    k,
                )).count() == 0,
            r matches Some(progress) ==> progress == final(self)@.newly_solved(old(self)@),
            final(self)@.propagated_from(old(self)@),
            r is None ==> !final(self)@.solvable() && final(self)@.dead(),
            r is Some ==> forall|i: int|
                0 <= i < old(self)@.cells.len() && (#[trigger] old(self)@.cells[i]).count() > 0
                    ==> final(self)@.cells[i].count() > 0,
            r == Some(false) ==> final(self)@.region_reduced(set),
            old(self)@.region_reduced(set) ==> r == Some(false) && final(self)@ == old(self)@,
    {
        let n = self.cells_per_set();
        let ghost before = self@;
        proof {
            self.lemma_iter_wf(set);
        }
        //List of digits allowed to be in the set; we will remove all others
        let mut possible: Vec<bool> = Vec::with_capacity(n);
        let mut d: usize = 0;
        while d < n
            invariant
                d <= n,
                possible.len() == d,
                forall|e: int| 0 <= e < d ==> possible[e],
            decreases n - d,
        {
            possible.push(true);
            d += 1;
        }
        //Loop over the set, removing each solved digit from possible
        let mut cells = self.iter_digits(set);
        loop
            invariant
                self@ == before,
                before.wf(),
                before.has_region(set),
                n == before.cells_per_set,
                *cells.board == *self,
                cells.wf(),
                cells.index_iterator == (IndexIterator {
                    current: cells.index_iterator.current,
                    ..self.spec_iter_indices(set)
                }),
                cells.index_iterator.current <= n,
                possible.len() == n,
                forall|e: int|
                    0 <= e < n ==> possible[e] == !before.used_before(
                        set,
                        cells.index_iterator.current as int,
                        e,
                    ),
            ensures
                cells.index_iterator.current == n,
            decreases n - cells.index_iterator.current,
        {
            let ghost k = cells.index_iterator.current as int;
            match cells.next() {
                None => {
                    break ;
                },
                Some(cell) => {
                    proof {
                        self.lemma_iter(set, k);
                    }
                    //If the digit is solved,
                    if let Some(solved_cell) = cell.get_single_index() {
                        //Set possible to false for that digit
                        possible.set(solved_cell, false);
                    }
                    proof {
                        assert forall|e: int| 0 <= e < n implies possible[e] == !before.used_before(
                            set,
                            k + 1,
                            e,
                        ) by {
                            if before.used_before(set, k, e) {
                                let j = choose|j: int|
                                    0 <= j < k && (#[trigger] before.at(set, j)).determined()
                                        && before.at(set, j).digit() == e;
                                assert(before.at(set, j).determined());
                            }
                        }
                    }
                },
            }
        }
        proof {
            assert forall|e: int| 0 <= e < n implies possible[e] == !before.used(set, e) by {
                if before.used(set, e) {
                    let j = choose|j: int|
                        0 <= j < n && (#[trigger] before.at(set, j)).determined() && before.at(
                            set,
                            j,
                        ).digit() == e;
                    assert(before.at(set, j).determined());
                }
                if before.used_before(set, n as int, e) {
                    let j = choose|j: int|
                        0 <= j < n && (#[trigger] before.at(set, j)).determined() && before.at(
                            set,
                            j,
                        ).digit() == e;
                    assert(before.at(set, j).determined());
                }
            }
        }
        //Loop over the set again, removing possibilities from each cell if it's not in 'possible'.
        let mut found_something = false;
        let mut indices = self.iter_indices(set);
        loop
            invariant
                before == old(self)@,
                before.wf(),
                before.has_region(set),
                self@.wf(),
                self@.same_shape(before),
                n == before.cells_per_set,
                indices.wf(),
                indices == (IndexIterator {
                    current: indices.current,
                    ..self.spec_iter_indices(set)
                }),
                indices.current <= n,
                possible.len() == n,
                forall|e: int| 0 <= e < n ==> possible[e] == !before.used(set, e),
                forall|i: int|
                    0 <= i < before.cells.len() && before.outside(set, i) ==> #[trigger] self@.cells[i]
                        == before.cells[i],
                forall|j: int|
                    0 <= j < indices.current ==> #[trigger] self@.at(set, j) == before.reduced_at(
                        set,
                        j,
                    ),
                forall|j: int|
                    0 <= j < indices.current ==> (#[trigger] before.reduced_at(set, j)).count() > 0,
                forall|j: int|
                    indices.current <= j < n ==> #[trigger] self@.at(set, j) == before.at(set, j),
                found_something == (exists|j: int|
                    0 <= j < indices.current && !before.at(set, j).solved && (
                    #[trigger] before.reduced_at(set, j)).solved),
            ensures
                indices.current == n,
            decreases n - indices.current,
        {
            let ghost k = indices.current as int;
            let ghost current = self@;
            match indices.next() {
                None => {
                    break ;
                },
                Some(location) => {
                    proof {
                        self.lemma_iter(set, k);
                        before.lemma_at(set, k);
                    }
                    let ghost i = before.number(set, k);
                    let ghost reduced = before.reduced_at(set, k);
                    assert(current.at(set, k) == before.at(set, k));
                    assert(current.number(set, k) == i);
                    let cell = self.get_mut(location);
                    assert(cell@ == before.at(set, k));
                    assert(cell@.wf(n as nat));
                    let mut emptied = false;
                    let mut newly_solved = false;
                    //If the digit isn't already solved,
                    if !cell.solved {
                        //only keep the possibilities it already had and that are possible
                        cell.retain(&possible);
                        assert(cell@.possibilities =~= reduced.possibilities);
                        //Check if the cell is now impossible.
                        emptied = cell.num_possibilities() == 0;
                        if !emptied {
                            //Check if the above process solved the digit
                            newly_solved = cell.check_newly_solved();
                        }
                    }
                    assert(cell@ == reduced);
                    assert(newly_solved == (!before.at(set, k).solved && reduced.solved));
                    assert(emptied == (reduced.count() == 0));
                    proof {
                        assert(self@ == current.with_tile(i, reduced)) by {
                            assert(self@.cells =~= current.with_tile(i, reduced).cells);
                        }
                        assert forall|j: int| 0 <= j < n && j != k implies #[trigger] self@.at(
                            set,
                            j,
                        ) == current.at(set, j) by {
                            before.lemma_distinct(set, j, k);
                            before.lemma_at(set, j);
                            assert(self@.number(set, j) == before.number(set, j));
                            assert(current.number(set, j) == before.number(set, j));
                        }
                        assert(self@.at(set, k) == reduced);
                        assert forall|x: int|
                            0 <= x < before.cells.len() && before.outside(
                                set,
                                x,
                            ) implies #[trigger] self@.cells[x] == before.cells[x] by {
                            assert(before.number(set, k) != x);
                        }
                        assert(self@.cells[i].wf(n as nat));
                    }
                    if emptied {
                        proof {
                            assert(before.reduced_at(set, k).count() == 0);
                            before.lemma_reduction(self@, set);
                            self@.lemma_dead_cell(i);
                            assert(self@.cells[i].count() == 0);
                            assert(self@.dead());
                            if before.region_reduced(set) {
                                before.lemma_reduced_is_fixed(set, k);
                            }
                            assert forall|j: int| 0 <= j < n implies #[trigger] self@.at(set, j)
                                == if before.emptied_before(set, j) {
                                before.at(set, j)
                            } else {
                                before.reduced_at(set, j)
                            } by {
                                if j > k {
                                    assert(before.reduced_at(set, k).count() == 0);
                                } else if before.emptied_before(set, j) {
                                    let x = choose|x: int|
                                        0 <= x < j && (#[trigger] before.reduced_at(set, x)).count()
                                            == 0;
                                    assert(self@.at(set, x) == before.reduced_at(set, x));
                                }
                            }
                        }
                        return None;
                    }
                    proof {
                        assert forall|j: int| 0 <= j < k + 1 implies #[trigger] self@.at(set, j)
                            == before.reduced_at(set, j) by {
                            if j < k {
                                assert(current.at(set, j) == before.reduced_at(set, j));
                                assert(self@.at(set, j) == current.at(set, j));
                            }
                        }
                        assert forall|j: int| k + 1 <= j < n implies #[trigger] self@.at(set, j)
                            == before.at(set, j) by {
                            assert(current.at(set, j) == before.at(set, j));
                            assert(self@.at(set, j) == current.at(set, j));
                        }
                    }
                    found_something = found_something || newly_solved;
                },
            }
        }
        proof {
            before.lemma_reduction(self@, set);
            assert forall|k: int| 0 <= k < n implies (#[trigger] before.reduced_at(set, k)).count()
                > 0 by {
                assert(self@.at(set, k) == before.reduced_at(set, k));
            }
            // whether a cell has become solved
            if found_something {
                let j = choose|j: int|
                    0 <= j < n && !before.at(set, j).solved && (#[trigger] before.reduced_at(
                        set,
                        j,
                    )).solved;
                before.lemma_at(set, j);
                assert(self@.at(set, j) == before.reduced_at(set, j));
                assert(!before.cells[before.number(set, j)].solved);
            }
            if self@.newly_solved(before) {
                let i = choose|i: int|
                    0 <= i < before.cells.len() && !(#[trigger] before.cells[i]).solved
                        && self@.cells[i].solved;
                if before.outside(set, i) {
                    assert(self@.cells[i] == before.cells[i]);
                } else {
                    let k = choose|k: int| 0 <= k < n && #[trigger] before.number(set, k) == i;
                    assert(self@.at(set, k) == before.reduced_at(set, k));
                    assert(before.reduced_at(set, k).solved);
                }
            }
            assert forall|i: int|
                0 <= i < before.cells.len() && (#[trigger] before.cells[i]).count()
                    > 0 implies self@.cells[i].count() > 0 by {
                if before.outside(set, i) {
                    assert(self@.cells[i] == before.cells[i]);
                } else {
                    let k = choose|k: int| 0 <= k < n && #[trigger] before.number(set, k) == i;
                    assert(self@.at(set, k) == before.reduced_at(set, k));
                }
            }
            if !found_something {
                assert forall|k: int| 0 <= k < n && !before.at(set, k).determined() implies !(
                #[trigger] before.reduced_at(set, k)).determined() by {
                    before.lemma_at(set, k);
                    assert(self@.at(set, k) == before.reduced_at(set, k));
                    self@.lemma_at(set, k);
                }
                before.lemma_reduction_done(self@, set);
            }
            if before.region_reduced(set) {
                assert forall|x: int| 0 <= x < before.cells.len() implies self@.cells[x]
                    == before.cells[x] by {
                    if !before.outside(set, x) {
                        let k = choose|k: int| 0 <= k < n && #[trigger] before.number(set, k) == x;
                        before.lemma_reduced_is_fixed(set, k);
                        assert(self@.at(set, k) == before.reduced_at(set, k));
                    }
                }
                assert(self@.cells =~= before.cells);
                assert(self@ == before);
            }
        }
        Some(found_something)
    }
}

impl BoardView {
    /// The reduction of the region empties a cell.
    pub open spec fn reduction_fails(self, set: DigitSet) -> bool {
        self.emptied_before(set, self.cells_per_set as int)
    }

    /// What the reduction of the region makes of the cell numbered `i`: a
    /// cell of the region is reduced unless the reduction has emptied a cell
    /// of the region before it, and every other cell is left as it is.
    pub open spec fn reduced_tile(self, set: DigitSet, i: int) -> CellView {
        if self.outside(set, i) {
            self.cells[i]
        } else {
            let k = choose|k: int| 0 <= k < self.cells_per_set && #[trigger] self.number(set, k) == i;
            if self.emptied_before(set, k) {
                self.cells[i]
            } else {
                self.reduced_at(set, k)
            }
        }
    }

    /// The board that the reduction of the region leaves.
    pub open spec fn reduced(self, set: DigitSet) -> BoardView {
        BoardView {
            cells: Seq::new(self.cells.len(), |i: int| self.reduced_tile(set, i)),
            ..self
        }
    }

    /// The reduction of one of the first `j` regions, taken in order, each
    /// on the board that the reductions before it have left, empties a
    /// cell.
    pub open spec fn reduction_stopped(self, j: nat) -> bool
        decreases j, 0nat,
    {
        j > 0 && (self.reduction_stopped((j - 1) as nat) || self.reduced_through(
            (j - 1) as nat,
        ).reduction_fails(nth_region(self.cells_per_set as usize, j - 1)))
    }

    /// The board that the reductions of the first `j` regions leave, taken
    /// in order, where no region is reduced once a reduction has emptied a
    /// cell.
    pub open spec fn reduced_through(self, j: nat) -> BoardView
        decreases j, 1nat,
    {
        if j == 0 {
            self
        } else if self.reduction_stopped((j - 1) as nat) {
            self.reduced_through((j - 1) as nat)
        } else {
            self.reduced_through((j - 1) as nat).reduced(
                nth_region(self.cells_per_set as usize, j - 1),
            )
        }
    }

    /// A board whose cells are what the reduction of the region makes of
    /// them is the board that the reduction leaves.
    pub proof fn lemma_reduced(self, new: BoardView, set: DigitSet)
        requires
            self.wf(),
            self.has_region(set),
            new.same_shape(self),
            forall|i: int|
                0 <= i < self.cells.len() && self.outside(set, i) ==> #[trigger] new.cells[i]
                    == self.cells[i],
            forall|k: int|
                0 <= k < self.cells_per_set ==> #[trigger] new.at(set, k) == if self.emptied_before(
                    set,
                    k,
                ) {
                    self.at(set, k)
                } else {
                    self.reduced_at(set, k)
                },
        ensures
            new == self.reduced(set),
    {
        assert forall|i: int| 0 <= i < self.cells.len() implies #[trigger] new.cells[i]
            == self.reduced_tile(set, i) by {
            if !self.outside(set, i) {
                let k = choose|k: int|
                    0 <= k < self.cells_per_set && #[trigger] self.number(set, k) == i;
                assert(new.at(set, k) == new.cells[i]);
                assert(self.at(set, k) == self.cells[i]);
            }
        }
        assert(new.cells =~= self.reduced(set).cells);
    }

    /// Once a reduction has emptied a cell, the board stays as that
    /// reduction has left it.
    pub proof fn lemma_reduction_stopped(self, j: nat, m: nat)
        requires
            self.reduction_stopped(j),
            j <= m,
        ensures
            self.reduction_stopped(m),
            self.reduced_through(m) == self.reduced_through(j),
        decreases m,
    {
        if j < m {
            self.lemma_reduction_stopped(j, (m - 1) as nat);
        }
    }

    /// What a pass that reduces every region knows of the board at stage
    /// `j`, if it began on the board `self`: which board it is.
    pub open spec fn quiet_pass(self) -> spec_fn(int, Option<bool>, BoardView) -> bool {
        |j: int, v: Option<bool>, b: BoardView|
            {
                &&& b.propagated_from(self)
                &&& 0 <= j <= 3 * self.cells_per_set
                &&& v is Some ==> b == self.reduced_through(j as nat) && !self.reduction_stopped(
                    j as nat,
                )
                &&& v is None ==> b == self.reduced_through((3 * self.cells_per_set) as nat)
                    && self.reduction_stopped((3 * self.cells_per_set) as nat)
            }
    }

    /// Two cells of the region allow `d`.
    pub open spec fn two_homes(self, set: DigitSet, d: int) -> bool {
        exists|k1: int, k2: int|
            0 <= k1 < k2 < self.cells_per_set && (#[trigger] self.at(set, k1)).allows(d) && (
            #[trigger] self.at(set, k2)).allows(d)
    }

    /// A digit with two homes is settled.
    pub proof fn lemma_two_homes(self, set: DigitSet, d: int)
        requires
            self.two_homes(set, d),
        ensures
            self.digit_settled(set, d),
    {
        let (k1, k2) = choose|k1: int, k2: int|
            0 <= k1 < k2 < self.cells_per_set && (#[trigger] self.at(set, k1)).allows(d) && (
            #[trigger] self.at(set, k2)).allows(d);
        assert(self.at(set, k1).allows(d));
        assert forall|k: int| self.only_home(set, d, k) implies (#[trigger] self.at(
            set,
            k,
        )).determined() by {
            if k != k1 {
                assert(!self.at(set, k1).allows(d));
            } else {
                assert(!self.at(set, k2).allows(d));
            }
        }
    }
}

impl Board {
    /// Looks for the only cell of the region that allows `digit`: the
    /// result is its coordinate, `Invalid` if no cell allows the digit, and
    /// `Duplicate` if more than one does.
    pub fn find_single_location(&self, set: DigitSet, digit: usize) -> (r: Location)
        requires
            self@.wf(),
            self@.has_region(set),
            digit < self@.cells_per_set,
        ensures
            r is Invalid <==> self@.homeless(set, digit as int),
            r is Duplicate <==> self@.two_homes(set, digit as int),
            r is Valid ==> exists|k: int|
                #![trigger self@.at(set, k)]
                self@.only_home(set, digit as int, k) && self.spec_iter_indices(set).coordinate(k)
                    == r,
            r is Valid ==> r.in_grid(self@.cells_per_set),
    {
        let n = self.cells_per_set();
        let mut location = Location::Invalid;
        let ghost mut home: int = 0;
        let mut indices = self.iter_indices(set);
        proof {
            self.lemma_iter_wf(set);
        }
        loop
            invariant
                self@.wf(),
                self@.has_region(set),
                n == self@.cells_per_set,
                digit < n,
                indices.wf(),
                indices == (IndexIterator { current: indices.current, ..self.spec_iter_indices(set) }),
                indices.current <= n,
                !(location is Duplicate),
                location is Invalid ==> forall|j: int|
                    0 <= j < indices.current ==> !(#[trigger] self@.at(set, j)).allows(digit as int),
                location is Valid ==> 0 <= home < indices.current && self@.at(set, home).allows(
                    digit as int,
                ) && self.spec_iter_indices(set).coordinate(home) == location && location.in_grid(
                    n as nat,
                ) && forall|j: int|
                    0 <= j < indices.current && j != home ==> !(#[trigger] self@.at(set, j)).allows(
                        digit as int,
                    ),
            ensures
                indices.current == n,
            decreases n - indices.current,
        {
            let ghost k = indices.current as int;
            match indices.next() {
                None => {
                    break ;
                },
                Some(here) => {
                    proof {
                        self.lemma_iter(set, k);
                    }
                    let cell = self.get(here);
                    assert(cell@ == self@.at(set, k));
                    if cell.possibilities[digit] {
                        match location {
                            Location::Invalid => {
                                location = here;
                                proof {
                                    home = k;
                                }
                            },
                            _ => {
                                assert(self@.at(set, home).allows(digit as int));
                                assert(self@.at(set, k).allows(digit as int));
                                proof {
                                    if self@.homeless(set, digit as int) {
                                        assert(!self@.at(set, k).allows(digit as int));
                                    }
                                }
                                return Location::Duplicate;
                            },
                        }
                    }
                },
            }
        }
        proof {
            if self@.two_homes(set, digit as int) {
                let (k1, k2) = choose|k1: int, k2: int|
                    0 <= k1 < k2 < n && (#[trigger] self@.at(set, k1)).allows(digit as int) && (
                    #[trigger] self@.at(set, k2)).allows(digit as int);
                assert(self@.at(set, k1).allows(digit as int));
                assert(self@.at(set, k2).allows(digit as int));
            }
            if location is Valid {
                assert(self@.only_home(set, digit as int, home));
                assert(self@.at(set, home).allows(digit as int));
                if self@.homeless(set, digit as int) {
                    assert(!self@.at(set, home).allows(digit as int));
                }
            }
        }
        location
    }
}

impl Board {
    /// Runs `reduce_possibilities` over every region, whatever the calls
    /// report: the pass goes as far as it gets. The rows are reduced first,
    /// then the columns, then the boxes, each on the board as the
    /// reductions before it have left it, and none once a reduction has
    /// emptied a cell.
    fn reduce_all(&mut self)
        requires
            old(self)@.wf(),
        ensures
            final(self)@ == old(self)@.reduced_through((3 * old(self)@.cells_per_set) as nat),
            final(self)@.propagated_from(old(self)@),
            final(self)@.same_shape(old(self)@),
    {
        let ghost before = self@;
        let ghost n = before.cells_per_set as usize;
        let ghost p = before.quiet_pass();
        proof {
            before.lemma_side();
            before.lemma_propagated_self();
            assert(p(0, Some(BooleanOperation::And.spec_initial()), before));
            assert forall|j: int, acc: bool, a: &mut Board, set: DigitSet, v: Option<bool>|
                0 <= j < 3 * before.cells_per_set && set == nth_region(n, j) && a@.wf()
                    && a@.same_shape(before) && #[trigger] p(j, Some(acc), a@)
                    && #[trigger] call_ensures(Board::reduce_possibilities, (a, set), v) implies p(
                pass_stage(BooleanOperation::And, n, j, acc, v),
                pass_value(BooleanOperation::And, acc, v),
                final(a)@,
            ) by {
                lemma_nth_region_fits(n, j);
                final(a)@.lemma_propagated_twice(a@, before);
                a@.lemma_reduced(final(a)@, set);
                assert(v is None <==> a@.reduction_fails(set));
                assert(a@ == before.reduced_through(j as nat));
                assert(!before.reduction_stopped(j as nat));
                assert(final(a)@ == before.reduced_through((j + 1) as nat));
                if v is None {
                    assert(before.reduction_stopped((j + 1) as nat));
                    before.lemma_reduction_stopped(
                        (j + 1) as nat,
                        (3 * before.cells_per_set) as nat,
                    );
                } else {
                    assert(!before.reduction_stopped((j + 1) as nat));
                }
            }
        }
        let r = self.for_sets(Board::reduce_possibilities, BooleanOperation::And);
        assert(p(3 * n, r, self@));
    }

    /// Check for single possible digit position in the given set.
    /// E.g. if there's only one position in row 6 that has 1 as a possibility,
    /// that cell must be 1.
    /// Returns true if if found something, false if it didn't, and `None` if the
    /// puzzle is unsolvable in its current state.
    ///
    /// The digits are taken in rising order. The first digit that no cell of
    /// the region allows ends the call with `None`. The first digit that has
    /// one home only, in a cell not yet solved, is placed there; every
    /// region is then reduced, rows first, then columns, then boxes, as far
    /// as the reductions get without emptying a cell, and the call ends
    /// with `Some(true)`.
    pub fn check_single_location(&mut self, set: DigitSet) -> (r: Option<bool>)
        requires
            old(self)@.wf(),
            old(self)@.has_region(set),
        ensures
            final(self)@.propagated_from(old(self)@),
            final(self)@.same_shape(old(self)@),
            r is None ==> final(self)@ == old(self)@ && !final(self)@.solvable() && final(self)@.dead()
                && exists|d: int|
                old(self)@.first_unsettled(set, d) && #[trigger] old(self)@.homeless(set, d),
            r == Some(false) <==> old(self)@.region_singles_placed(set),
            r == Some(false) ==> final(self)@ == old(self)@,
            r == Some(true) ==> final(self)@.newly_solved(old(self)@) && exists|d: int, k: int|
                #![trigger old(self)@.at(set, k), old(self)@.homeless(set, d)]
                old(self)@.first_unsettled(set, d) && old(self)@.only_home(set, d, k) && !old(
                    self,
                )@.at(set, k).solved && final(self)@ == old(self)@.with_tile(
                    old(self)@.number(set, k),
                    CellView::single(old(self)@.cells_per_set, d),
                ).reduced_through((3 * old(self)@.cells_per_set) as nat)
                    && final(self)@.propagated_from(
                    old(self)@.with_tile(
                        old(self)@.number(set, k),
                        CellView::single(old(self)@.cells_per_set, d),
                    ),
                ),
    {
        let n = self.cells_per_set();
        let ghost before = self@;
        proof {
            before.lemma_propagated_self();
        }
        //Check the set for a hidden single of each digit
        let mut needed_digit: usize = 0;
        while needed_digit < n
            invariant
                self@ == before,
                before == old(self)@,
                before.wf(),
                before.has_region(set),
                n == before.cells_per_set,
                needed_digit <= n,
                forall|e: int| 0 <= e < needed_digit ==> #[trigger] before.digit_settled(set, e),
            decreases n - needed_digit,
        {
            //The *only* possible location for the needed_digit, if it exists.
            let location = self.find_single_location(set, needed_digit);
            match location {
                Location::Invalid => {
                    //We never found a place to put the digit: it's unsolvable.
                    proof {
                        before.lemma_dead_digit(set, needed_digit as int);
                        assert(!before.digit_settled(set, needed_digit as int));
                        assert(before.homeless(set, needed_digit as int));
                        assert(before.first_unsettled(set, needed_digit as int));
                        assert(before.dead());
                    }
                    return None;
                },
                Location::Duplicate => {
                    proof {
                        before.lemma_two_homes(set, needed_digit as int);
                    }
                },
                Location::Valid(_, _) => {
                    let ghost k = choose|k: int|
                        #![trigger before.at(set, k)]
                        before.only_home(set, needed_digit as int, k) && self.spec_iter_indices(
                            set,
                        ).coordinate(k) == location;
                    proof {
                        self.lemma_iter(set, k);
                    }
                    //Otherwise, update the cell (unless it's solved).
                    if !self.get(location).solved {
                        let solved = Cell::new_single_digit(n, needed_digit);
                        self.set(location, solved);
                        let ghost mid = self@;
                        proof {
                            let i = before.number(set, k);
                            assert(mid == before.with_tile(
                                i,
                                CellView::single(n as nat, needed_digit as int),
                            ));
                            before.lemma_single_home(set, needed_digit as int, k);
                            assert(mid.keeps_solved(before)) by {
                                assert forall|x: int|
                                    0 <= x < before.cells.len() && (
                                    #[trigger] before.cells[x]).solved implies mid.cells[x]
                                    == before.cells[x] by {
                                    assert(x != i);
                                }
                            }
                            assert(!before.cells[i].solved && mid.cells[i].solved);
                            assert(mid.newly_solved(before));
                            assert(!before.digit_settled(set, needed_digit as int)) by {
                                assert(before.only_home(set, needed_digit as int, k));
                                assert(!before.at(set, k).determined());
                            }
                            assert(before.first_unsettled(set, needed_digit as int));
                        }
                        //Then reduce possibilities to make sure we don't place two of the
                        //same digit in sets that see each other.
                        self.reduce_all();
                        proof {
                            self@.lemma_propagated_twice(mid, before);
                        }
                        return Some(true);
                    }
                    proof {
                        assert forall|j: int|
                            before.only_home(set, needed_digit as int, j) implies (
                        #[trigger] before.at(set, j)).determined() by {
                            if j != k {
                                assert(!before.at(set, j).allows(needed_digit as int));
                            }
                        }
                        assert(before.at(set, k).allows(needed_digit as int));
                        assert(before.digit_settled(set, needed_digit as int));
                    }
                },
            }
            needed_digit += 1;
        }
        Some(false)
    }
}

} // verus!
