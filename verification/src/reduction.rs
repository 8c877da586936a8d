//! The reduction loop: propagation to a standstill, without a guess.

use vstd::prelude::*;
use crate::board::Board;
use crate::boolean_operation::BooleanOperation;
use crate::digit_set::DigitSet;
use crate::model::{lemma_nth_region, lemma_nth_region_fits, nth_region, pass_stage, pass_value,
    BoardView};

verus! {

impl BoardView {
    /// What a pass that places the single homes of every region knows at
    /// stage `j`, if it began on the board `self`.
    pub open spec fn singles_pass(self) -> spec_fn(int, Option<bool>, BoardView) -> bool {
        |j: int, v: Option<bool>, b: BoardView|
            {
                &&& b.propagated_from(self)
                &&& v is None ==> !b.solvable() && b.dead()
                &&& v matches Some(progress) ==> progress == b.newly_solved(self)
                &&& v == Some(false) ==> b == self && forall|i: int|
                    0 <= i < j ==> self.region_singles_placed(
                        #[trigger] nth_region(self.cells_per_set as usize, i),
                    )
            }
    }

    /// What a pass that places the single homes of every region knows at
    /// every stage, if it began on a stable board: nothing has changed.
    pub open spec fn stable_pass(self) -> spec_fn(int, Option<bool>, BoardView) -> bool {
        |j: int, v: Option<bool>, b: BoardView| self.stable() ==> b == self && v == Some(false)
    }

    /// What the reduction loop makes of the board `self`: `after`, with the
    /// result `r`.
    ///
    /// `after` is what propagation may make of `self`. With `None` it is
    /// dead; otherwise it is stable, and `r` says whether a cell has become
    /// solved. A stable board is left as it is.
    pub open spec fn reduced_to(self, after: BoardView, r: Option<bool>) -> bool {
        &&& after.propagated_from(self)
        &&& r is None ==> after.dead()
        &&& r is Some ==> after.stable()
        &&& r is Some && !after.contradicts() ==> after.strikes_solved(self)
        &&& r matches Some(progress) ==> progress == after.newly_solved(self)
        &&& self.stable() ==> r == Some(false) && after == self
    }

    /// What the fused reduction loop makes of the board `self`.
    pub open spec fn fast_reduced_to(self, after: BoardView, r: Option<()>) -> bool {
        &&& after.propagated_from(self)
        &&& r is None ==> after.dead()
        &&& r is Some ==> after.stable()
        &&& r is Some && !after.contradicts() ==> after.strikes_solved(self)
        &&& self.stable() ==> r is Some && after == self
    }

    /// The digit of a cell that `old` has solved is allowed in no other
    /// cell of a row, a column or a box of that cell.
    pub open spec fn strikes_solved(self, old: BoardView) -> bool {
        forall|set: DigitSet, j: int, k: int|
            #![trigger old.at(set, j), self.at(set, k)]
            old.has_region(set) && 0 <= j < old.cells_per_set && 0 <= k < old.cells_per_set && j
                != k && old.at(set, j).solved ==> !self.at(set, k).allows(old.at(set, j).digit())
    }

    /// A stable board that holds no digit twice and has kept the solved
    /// cells of `old` allows their digits nowhere else in their regions.
    pub proof fn lemma_stable_strikes(self, old: BoardView)
        requires
            old.wf(),
            self.wf(),
            self.same_shape(old),
            self.keeps_solved(old),
            self.stable(),
            !self.contradicts(),
        ensures
            self.strikes_solved(old),
    {
        assert forall|set: DigitSet, j: int, k: int|
            #![trigger old.at(set, j), self.at(set, k)]
            old.has_region(set) && 0 <= j < old.cells_per_set && 0 <= k < old.cells_per_set && j
                != k && old.at(set, j).solved implies !self.at(set, k).allows(
            old.at(set, j).digit(),
        ) by {
            let d = old.at(set, j).digit();
            old.lemma_at(set, j);
            self.lemma_at(set, k);
            assert(old.cells[old.number(set, j)].solved);
            assert(self.at(set, j) == old.at(set, j));
            assert(self.at(set, j).determined());
            assert(self.has_region(set));
            assert(self.region_reduced(set));
            assert(self.used(set, d));
            if self.at(set, k).allows(d) {
                if self.at(set, k).determined() {
                    self.at(set, k).lemma_determined();
                    assert(self.region_contradicts(set));
                    assert(self.contradicts());
                } else {
                    assert(!self.used(set, d));
                }
            }
        }
    }

    /// A solved board is stable.
    pub proof fn lemma_solved_stable(self)
        requires
            self.wf(),
            self.solved(),
        ensures
            self.stable(),
    {
        let n = self.cells_per_set;
        assert forall|set: DigitSet| #[trigger] self.has_region(set) implies self.region_reduced(
            set,
        ) && self.region_singles_placed(set) by {
            assert(self.region_solved(set));
            assert forall|k: int| 0 <= k < n implies (#[trigger] self.at(set, k)).count() > 0 by {
                assert(self.at(set, k).determined());
            }
            assert forall|k: int| 0 <= k < n implies {
                let cell = #[trigger] self.at(set, k);
                &&& cell.count() > 0
                &&& !cell.determined() ==> forall|d: int|
                    #![trigger self.used(set, d)]
                    cell.allows(d) ==> !self.used(set, d)
            } by {
                assert(self.at(set, k).determined());
            }
            self.lemma_solved_completes();
            let g = self.grid();
            assert forall|d: int| 0 <= d < n implies #[trigger] self.digit_settled(set, d) by {
                self.lemma_grid_has_digit(g, set, d);
                let k = choose|k: int| 0 <= k < n && g[#[trigger] self.number(set, k)] == d;
                self.lemma_at(set, k);
                assert(self.at(set, k).determined());
                self.at(set, k).lemma_determined();
                assert(self.at(set, k).allows(d));
                assert forall|j: int| self.only_home(set, d, j) implies (#[trigger] self.at(
                    set,
                    j,
                )).determined() by {
                    assert(self.at(set, j).determined());
                }
            }
        }
    }

    /// A board all of whose regions are reduced and have their single homes
    /// placed is stable.
    pub proof fn lemma_stable(self)
        requires
            self.wf(),
            forall|i: int|
                0 <= i < 3 * self.cells_per_set ==> self.region_reduced(
                    #[trigger] nth_region(self.cells_per_set as usize, i),
                ),
            forall|i: int|
                0 <= i < 3 * self.cells_per_set ==> self.region_singles_placed(
                    #[trigger] nth_region(self.cells_per_set as usize, i),
                ),
        ensures
            self.stable(),
    {
        self.lemma_side();
        assert forall|set: DigitSet| #[trigger] self.has_region(set) implies self.region_reduced(
            set,
        ) && self.region_singles_placed(set) by {
            lemma_nth_region(self.cells_per_set as usize, set);
            let j = choose|j: int|
                0 <= j < 3 * self.cells_per_set && #[trigger] nth_region(
                    self.cells_per_set as usize,
                    j,
                ) == set;
            assert(self.region_reduced(nth_region(self.cells_per_set as usize, j)));
            assert(self.region_singles_placed(nth_region(self.cells_per_set as usize, j)));
        }
    }
}

impl Board {
    /// One pass of `reduce_possibilities` over every region: the rows are
    /// reduced first, then the columns, then the boxes, each on the board
    /// as the reductions before it have left it, and none once a reduction
    /// has emptied a cell.
    ///
    /// `None` says that a cell was left with no digit. Otherwise the result
    /// says whether a cell has become solved; if none has, every region is
    /// reduced.
    pub fn reduce_pass(&mut self) -> (r: Option<bool>)
        requires
            old(self)@.wf(),
        ensures
            final(self)@ == old(self)@.reduced_through((3 * old(self)@.cells_per_set) as nat),
            r is None <==> old(self)@.reduction_stopped((3 * old(self)@.cells_per_set) as nat),
            final(self)@.propagated_from(old(self)@),
            final(self)@.same_shape(old(self)@),
            r is None ==> !final(self)@.solvable() && final(self)@.dead(),
            r matches Some(progress) ==> progress == final(self)@.newly_solved(old(self)@),
            r == Some(false) ==> forall|i: int|
                0 <= i < 3 * old(self)@.cells_per_set ==> final(self)@.region_reduced(
                    #[trigger] nth_region(old(self)@.cells_per_set as usize, i),
                ),
            old(self)@.stable() ==> final(self)@ == old(self)@ && r == Some(false),
    {
        let ghost before = self@;
        let ghost n = before.cells_per_set as usize;
        let ghost p = before.reduce_pass();
        let ghost q = before.quiet_pass();
        proof {
            before.lemma_side();
            before.lemma_propagated_self();
            assert(p(0, Some(BooleanOperation::Or.spec_initial()), before));
            assert forall|j: int, acc: bool, a: &mut Board, set: DigitSet, v: Option<bool>|
                0 <= j < 3 * before.cells_per_set && set == nth_region(n, j) && a@.wf()
                    && a@.same_shape(before) && #[trigger] p(j, Some(acc), a@)
                    && #[trigger] call_ensures(Board::reduce_possibilities, (a, set), v) implies p(
                pass_stage(BooleanOperation::Or, n, j, acc, v),
                pass_value(BooleanOperation::Or, acc, v),
                final(a)@,
            ) by {
                lemma_nth_region_fits(n, j);
                let b0 = a@;
                let b1 = final(a)@;
                b1.lemma_propagated_twice(b0, before);
                if pass_value(BooleanOperation::Or, acc, v) == Some(false) {
                    assert(v == Some(false) && !acc);
                    assert forall|i: int| 0 <= i < j + 1 implies b1.region_reduced(
                        #[trigger] nth_region(n, i),
                    ) by {
                        lemma_nth_region_fits(n, i);
                        if i < j {
                            assert(b0.region_reduced(nth_region(n, i)));
                            b0.lemma_reduced_kept(b1, nth_region(n, i));
                        }
                    }
                }
                if before.stable() {
                    assert(b0 == before);
                    assert(before.has_region(set));
                    assert(before.region_reduced(set));
                }
            }
            assert(q(0, Some(BooleanOperation::Or.spec_initial()), before));
            assert forall|j: int, acc: bool, a: &mut Board, set: DigitSet, v: Option<bool>|
                0 <= j < 3 * before.cells_per_set && set == nth_region(n, j) && a@.wf()
                    && a@.same_shape(before) && #[trigger] q(j, Some(acc), a@)
                    && #[trigger] call_ensures(Board::reduce_possibilities, (a, set), v) implies q(
                pass_stage(BooleanOperation::Or, n, j, acc, v),
                pass_value(BooleanOperation::Or, acc, v),
                final(a)@,
            ) by {
                lemma_nth_region_fits(n, j);
                final(a)@.lemma_propagated_twice(a@, before);
                a@.lemma_reduced(final(a)@, set);
                assert(v is None <==> a@.reduction_fails(set));
                assert(a@ == before.reduced_through(j as nat));
                assert(!before.reduction_stopped(j as nat));
                assert(final(a)@ == before.reduced_through((j + 1) as nat));
                if v is None {
                    assert(before.reduction_stopped((j + 1) as nat));
                    before.lemma_reduction_stopped(
                        (j + 1) as nat,
                        (3 * before.cells_per_set) as nat,
                    );
                } else {
                    assert(!before.reduction_stopped((j + 1) as nat));
                }
            }
        }
        let r = self.for_sets(Board::reduce_possibilities, BooleanOperation::Or);
        proof {
            assert(p(3 * n, r, self@));
            assert(q(3 * n, r, self@));
        }
        r
    }

    /// One pass of `check_single_location` over every region.
    ///
    /// `None` says that a digit has no home in some region. Otherwise the
    /// result says whether a digit was placed; if none was, the board is as
    /// it was and every region has its single homes placed.
    pub fn singles_pass(&mut self) -> (r: Option<bool>)
        requires
            old(self)@.wf(),
        ensures
            final(self)@.propagated_from(old(self)@),
            final(self)@.same_shape(old(self)@),
            r is None ==> !final(self)@.solvable() && final(self)@.dead(),
            r matches Some(progress) ==> progress == final(self)@.newly_solved(old(self)@),
            r == Some(false) ==> final(self)@ == old(self)@ && forall|i: int|
                0 <= i < 3 * old(self)@.cells_per_set ==> old(self)@.region_singles_placed(
                    #[trigger] nth_region(old(self)@.cells_per_set as usize, i),
                ),
            old(self)@.stable() ==> r == Some(false),
    {
        let ghost before = self@;
        let ghost n = before.cells_per_set as usize;
        let ghost p = before.singles_pass();
        let ghost q = before.stable_pass();
        proof {
            before.lemma_side();
            before.lemma_propagated_self();
            assert(p(0, Some(BooleanOperation::Or.spec_initial()), before));
            assert forall|j: int, acc: bool, a: &mut Board, set: DigitSet, v: Option<bool>|
                0 <= j < 3 * before.cells_per_set && set == nth_region(n, j) && a@.wf()
                    && a@.same_shape(before) && #[trigger] p(j, Some(acc), a@)
                    && #[trigger] call_ensures(Board::check_single_location, (a, set), v) implies p(
                pass_stage(BooleanOperation::Or, n, j, acc, v),
                pass_value(BooleanOperation::Or, acc, v),
                final(a)@,
            ) by {
                lemma_nth_region_fits(n, j);
                let b0 = a@;
                let b1 = final(a)@;
                b1.lemma_propagated_twice(b0, before);
                if v == Some(false) {
                    assert(!b1.newly_solved(b0));
                }
            }
            assert(q(0, Some(BooleanOperation::Or.spec_initial()), before));
            assert forall|j: int, acc: bool, a: &mut Board, set: DigitSet, v: Option<bool>|
                0 <= j < 3 * before.cells_per_set && set == nth_region(n, j) && a@.wf()
                    && a@.same_shape(before) && #[trigger] q(j, Some(acc), a@)
                    && #[trigger] call_ensures(Board::check_single_location, (a, set), v) implies q(
                pass_stage(BooleanOperation::Or, n, j, acc, v),
                pass_value(BooleanOperation::Or, acc, v),
                final(a)@,
            ) by {
                lemma_nth_region_fits(n, j);
                if before.stable() {
                    assert(a@ == before);
                    assert(before.has_region(set));
                    assert(before.region_singles_placed(set));
                }
            }
        }
        let r = self.for_sets(Board::check_single_location, BooleanOperation::Or);
        proof {
            assert(p(3 * n, r, self@));
            assert(q(3 * n, r, self@));
        }
        r
    }

    /// Applies `reduce_possibilities` and `check_single_location` to every
    /// region, again and again, until neither solves a cell or one of them
    /// finds the board unsolvable. No guess is made.
    ///
    /// `None` says that the board has no completion. Otherwise the board is
    /// stable, and the result says whether a cell has become solved.
    pub fn reduce_and_check_singles_loop(&mut self) -> (r: Option<bool>)
        requires
            old(self)@.wf(),
        ensures
            final(self)@.propagated_from(old(self)@),
            final(self)@.same_shape(old(self)@),
            r is None ==> !final(self)@.solvable() && !old(self)@.solvable() && final(self)@.dead(),
            r is Some ==> final(self)@.stable(),
            r matches Some(progress) ==> progress == final(self)@.newly_solved(old(self)@),
            old(self)@.stable() ==> r == Some(false) && final(self)@ == old(self)@,
            old(self)@.reduced_to(final(self)@, r),
    {
        let ghost before = self@;
        let mut found_something_ever = false;
        let mut found_something_now = true;
        proof {
            before.lemma_propagated_self();
        }
        while found_something_now
            invariant
                before == old(self)@,
                before.wf(),
                self@.propagated_from(before),
                self@.same_shape(before),
                found_something_ever == self@.newly_solved(before),
                !found_something_now ==> self@.stable(),
                before.stable() ==> self@ == before,
            decreases self@.total(), found_something_now as int,
        {
            let ghost start = self@;
            let found_by_reducing = self.reduce_pass();
            let ghost mid = self@;
            proof {
                mid.lemma_propagated_twice(start, before);
                mid.lemma_total_within(start);
            }
            //Don't bother checking singles if the puzzle is definitely unsolvable.
            if found_by_reducing.is_none() {
                return None;
            }
            let found_by_singles = self.singles_pass();
            proof {
                self@.lemma_propagated_twice(mid, start);
                self@.lemma_propagated_twice(start, before);
                self@.lemma_total_within(start);
            }
            if found_by_singles.is_none() {
                return None;
            }
            found_something_now = found_by_reducing.unwrap() || found_by_singles.unwrap();
            found_something_ever = found_something_ever || found_something_now;
            proof {
                if found_something_now {
                    self@.lemma_total_progress(start);
                } else {
                    self@.lemma_stable();
                }
            }
        }
        proof {
            if !self@.contradicts() {
                self@.lemma_stable_strikes(before);
            }
        }
        Some(found_something_ever)
    }
}

} // verus!
