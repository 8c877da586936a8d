//! What propagation may do to a board without losing a completion of it.

use vstd::prelude::*;
use crate::cell::CellView;
use crate::counting::{lemma_count_within, lemma_count_within_equal, lemma_count_zero,
    lemma_injection_is_onto};
use crate::digit_set::DigitSet;
use crate::geometry::lemma_flat_onto;
use crate::model::{total_count, BoardView};

verus! {

/// Cells that allow less count less in sum.
pub proof fn lemma_total_count_within(a: Seq<CellView>, b: Seq<CellView>)
    requires
        a.len() == b.len(),
        forall|i: int| 0 <= i < a.len() ==> (#[trigger] a[i]).within(b[i]),
    ensures
        total_count(a) <= total_count(b),
    decreases a.len(),
{
    if a.len() > 0 {
        assert forall|i: int| 0 <= i < a.drop_last().len() implies (#[trigger] a.drop_last()[i]).within(
            b.drop_last()[i],
        ) by {
            assert(a[i].within(b[i]));
        }
        lemma_total_count_within(a.drop_last(), b.drop_last());
        assert(a[a.len() - 1].within(b[a.len() - 1]));
        lemma_count_within(a.last().possibilities, b.last().possibilities);
    }
}

/// Cells that allow less, and one of them strictly less, count strictly
/// less in sum.
pub proof fn lemma_total_count_strict(a: Seq<CellView>, b: Seq<CellView>, i: int)
    requires
        a.len() == b.len(),
        forall|i: int| 0 <= i < a.len() ==> (#[trigger] a[i]).within(b[i]),
        0 <= i < a.len(),
        a[i].count() < b[i].count(),
    ensures
        total_count(a) < total_count(b),
    decreases a.len(),
{
    assert forall|j: int| 0 <= j < a.drop_last().len() implies (#[trigger] a.drop_last()[j]).within(
        b.drop_last()[j],
    ) by {
        assert(a[j].within(b[j]));
    }
    if i == a.len() - 1 {
        lemma_total_count_within(a.drop_last(), b.drop_last());
    } else {
        lemma_total_count_strict(a.drop_last(), b.drop_last(), i);
        assert(a[a.len() - 1].within(b[a.len() - 1]));
        lemma_count_within(a.last().possibilities, b.last().possibilities);
    }
}

impl BoardView {
    /// What propagation makes of what propagation has made of a board is
    /// what propagation may make of that board.
    pub proof fn lemma_propagated_twice(self, mid: BoardView, old: BoardView)
        requires
            mid.propagated_from(old),
            self.propagated_from(mid),
        ensures
            self.propagated_from(old),
            self.same_shape(old),
            self.newly_solved(old) == (mid.newly_solved(old) || self.newly_solved(mid)),
    {
        assert forall|i: int| 0 <= i < self.cells.len() implies (#[trigger] self.cells[i]).within(
            old.cells[i],
        ) by {
            assert(self.cells[i].within(mid.cells[i]));
            assert(mid.cells[i].within(old.cells[i]));
        }
        assert forall|i: int|
            0 <= i < old.cells.len() && (#[trigger] old.cells[i]).solved implies self.cells[i]
            == old.cells[i] by {
            assert(mid.cells[i] == old.cells[i]);
        }
        if self.newly_solved(old) {
            let i = choose|i: int|
                0 <= i < old.cells.len() && !(#[trigger] old.cells[i]).solved
                    && self.cells[i].solved;
            if mid.cells[i].solved {
                assert(mid.newly_solved(old));
            } else {
                assert(self.newly_solved(mid));
            }
        }
        if mid.newly_solved(old) {
            let i = choose|i: int|
                0 <= i < old.cells.len() && !(#[trigger] old.cells[i]).solved
                    && mid.cells[i].solved;
            assert(self.cells[i] == mid.cells[i]);
        }
        if self.newly_solved(mid) {
            let i = choose|i: int|
                0 <= i < mid.cells.len() && !(#[trigger] mid.cells[i]).solved
                    && self.cells[i].solved;
            if old.cells[i].solved {
                assert(mid.cells[i] == old.cells[i]);
            }
        }
    }

    /// A board is what propagation may make of itself.
    pub proof fn lemma_propagated_self(self)
        requires
            self.wf(),
        ensures
            self.propagated_from(self),
            !self.newly_solved(self),
    {
    }

    /// A board that allows less counts less.
    pub proof fn lemma_total_within(self, old: BoardView)
        requires
            self.within(old),
        ensures
            self.total() <= old.total(),
    {
        lemma_total_count_within(self.cells, old.cells);
    }

    /// A board that allows less and has solved a cell more counts strictly
    /// less.
    pub proof fn lemma_total_progress(self, old: BoardView)
        requires
            old.wf(),
            self.wf(),
            self.within(old),
            self.newly_solved(old),
        ensures
            self.total() < old.total(),
    {
        let i = choose|i: int|
            0 <= i < old.cells.len() && !(#[trigger] old.cells[i]).solved && self.cells[i].solved;
        assert(self.cells[i].within(old.cells[i]));
        assert(self.cells[i].wf(self.cells_per_set));
        lemma_count_within(self.cells[i].possibilities, old.cells[i].possibilities);
        lemma_total_count_strict(self.cells, old.cells, i);
    }

    /// Which grids are valid depends on the shape of the board alone.
    pub proof fn lemma_valid_grid_shape(self, other: BoardView, g: Seq<int>)
        requires
            self.same_shape(other),
        ensures
            self.valid_grid(g) == other.valid_grid(g),
    {
        if self.valid_grid(g) {
            assert forall|set: DigitSet, k1: int, k2: int|
                other.has_region(set) && 0 <= k1 < k2 < other.cells_per_set implies g[#[trigger] other.number(
                set,
                k1,
            )] != g[#[trigger] other.number(set, k2)] by {
                assert(self.has_region(set));
                assert(self.number(set, k1) == other.number(set, k1));
                assert(self.number(set, k2) == other.number(set, k2));
            }
        }
        if other.valid_grid(g) {
            assert forall|set: DigitSet, k1: int, k2: int|
                self.has_region(set) && 0 <= k1 < k2 < self.cells_per_set implies g[#[trigger] self.number(
                set,
                k1,
            )] != g[#[trigger] self.number(set, k2)] by {
                assert(other.has_region(set));
                assert(self.number(set, k1) == other.number(set, k1));
                assert(self.number(set, k2) == other.number(set, k2));
            }
        }
    }

    /// A completion of a board completes every board that allows more.
    pub proof fn lemma_within_completion(self, old: BoardView, g: Seq<int>)
        requires
            self.within(old),
            self.completed_by(g),
        ensures
            old.completed_by(g),
    {
        self.lemma_valid_grid_shape(old, g);
        assert forall|i: int| 0 <= i < old.cells.len() implies (#[trigger] old.cells[i]).allows(
            g[i],
        ) by {
            assert(self.cells[i].allows(g[i]));
            assert(self.cells[i].within(old.cells[i]));
        }
    }

    /// A completion gives a cell with one digit left that digit.
    pub proof fn lemma_determined_digit(self, g: Seq<int>, i: int)
        requires
            self.admits(g),
            0 <= i < self.cells.len(),
            self.cells[i].determined(),
        ensures
            g[i] == self.cells[i].digit(),
    {
        assert(self.cells[i].allows(g[i]));
        self.cells[i].lemma_determined();
    }

    /// A valid grid holds every digit in every region.
    pub proof fn lemma_grid_has_digit(self, g: Seq<int>, set: DigitSet, d: int)
        requires
            self.wf(),
            self.valid_grid(g),
            self.has_region(set),
            0 <= d < self.cells_per_set,
        ensures
            exists|k: int| 0 <= k < self.cells_per_set && g[#[trigger] self.number(set, k)] == d,
    {
        let f = |k: int| g[self.number(set, k)];
        assert forall|k: int| 0 <= k < self.cells_per_set implies 0 <= #[trigger] f(k)
            < self.cells_per_set by {
            self.lemma_at(set, k);
        }
        assert forall|k1: int, k2: int| 0 <= k1 < k2 < self.cells_per_set implies #[trigger] f(k1)
            != #[trigger] f(k2) by {
            assert(g[self.number(set, k1)] != g[self.number(set, k2)]);
        }
        lemma_injection_is_onto(self.cells_per_set as int, f, d);
        let k = choose|k: int| 0 <= k < self.cells_per_set && #[trigger] f(k) == d;
        assert(g[self.number(set, k)] == d);
    }

    /// A cell with one digit left here holds that digit on every stable
    /// board that allows no more than this board does.
    pub proof fn lemma_stable_keeps_digit(self, other: BoardView, set: DigitSet, j: int)
        requires
            self.wf(),
            self.has_region(set),
            0 <= j < self.cells_per_set,
            self.at(set, j).determined(),
            other.wf(),
            other.stable(),
            other.within(self),
        ensures
            other.at(set, j).determined(),
            other.at(set, j).digit() == self.at(set, j).digit(),
    {
        self.lemma_at(set, j);
        other.lemma_at(set, j);
        let mine = self.at(set, j);
        let theirs = other.at(set, j);
        assert(other.has_region(set));
        assert(other.region_reduced(set));
        assert(theirs.count() > 0);
        assert(other.cells[other.number(set, j)].within(self.cells[self.number(set, j)]));
        lemma_count_within(theirs.possibilities, mine.possibilities);
        lemma_count_within_equal(theirs.possibilities, mine.possibilities);
    }

    /// A settled board that allows no more than this board does allows no
    /// digit that is excluded here.
    pub proof fn lemma_excluded_from_settled(self, other: BoardView, i: int, e: int)
        requires
            self.wf(),
            0 <= i < self.cells.len(),
            self.excluded(i, e),
            other.settled(),
            other.within(self),
        ensures
            !other.cells[i].allows(e),
    {
        let (set, k, j) = choose|set: DigitSet, k: int, j: int|
            #![trigger self.number(set, k), self.at(set, j)]
            self.has_region(set) && 0 <= k < self.cells_per_set && 0 <= j < self.cells_per_set && k
                != j && self.number(set, k) == i && self.at(set, j).determined() && self.at(
                set,
                j,
            ).digit() == e;
        self.lemma_stable_keeps_digit(other, set, j);
        assert(other.has_region(set));
        assert(other.at(set, k) == other.cells[i]);
        if other.cells[i].allows(e) {
            assert(other.used(set, e));
            assert(other.region_reduced(set));
            if other.at(set, k).determined() {
                other.at(set, k).lemma_determined();
                if k < j {
                    assert(other.region_contradicts(set));
                } else {
                    assert(other.region_contradicts(set));
                }
                assert(other.contradicts());
            } else {
                assert(!other.used(set, e));
            }
        }
    }

    /// A digit held twice in a region here is held twice there on every
    /// stable board that allows no more than this board does.
    pub proof fn lemma_contradiction_kept(self, other: BoardView)
        requires
            self.wf(),
            self.contradicts(),
            other.wf(),
            other.stable(),
            other.within(self),
        ensures
            other.contradicts(),
    {
        let set = choose|set: DigitSet| #[trigger] self.has_region(set) && self.region_contradicts(set);
        let (k1, k2) = choose|k1: int, k2: int|
            0 <= k1 < k2 < self.cells_per_set && (#[trigger] self.at(set, k1)).determined() && (
            #[trigger] self.at(set, k2)).determined() && self.at(set, k1).digit() == self.at(
                set,
                k2,
            ).digit();
        self.lemma_stable_keeps_digit(other, set, k1);
        self.lemma_stable_keeps_digit(other, set, k2);
        assert(other.has_region(set));
        assert(other.region_contradicts(set));
    }

    /// Two well-formed boards each of which allows no more than the other
    /// are one board.
    pub proof fn lemma_within_both_ways(self, other: BoardView)
        requires
            self.wf(),
            other.wf(),
            self.within(other),
            other.within(self),
        ensures
            self == other,
    {
        assert forall|i: int| 0 <= i < self.cells.len() implies #[trigger] self.cells[i]
            == other.cells[i] by {
            assert(self.cells[i].within(other.cells[i]));
            assert(other.cells[i].within(self.cells[i]));
            assert(self.cells[i].wf(self.cells_per_set));
            assert(other.cells[i].wf(other.cells_per_set));
            assert(self.cells[i].possibilities =~= other.cells[i].possibilities);
        }
        assert(self.cells =~= other.cells);
    }

    /// Propagation that ends on a settled board can end on no other board:
    /// every board that propagation may make of `self` and that is stable
    /// or dead is that settled board.
    pub proof fn lemma_settled_end_is_unique(self, settled: BoardView, other: BoardView)
        requires
            self.wf(),
            settled.propagated_from(self),
            settled.settled(),
            other.propagated_from(self),
            other.stable() || other.dead(),
        ensures
            other == settled,
    {
        assert(settled.within(self));
        assert(settled.within(other));
        if other.dead() {
            other.lemma_dead_kept(settled);
            settled.lemma_stable_alive();
        }
        if other.contradicts() {
            other.lemma_contradiction_kept(settled);
        }
        assert(other.settled());
        assert(other.within(self));
        assert(other.within(settled));
        settled.lemma_within_both_ways(other);
    }

    /// A board that has lost only digits that were excluded has lost no
    /// completion.
    pub proof fn lemma_exclusion_keeps_completions(self, old: BoardView)
        requires
            old.wf(),
            self.within(old),
            forall|i: int, e: int|
                0 <= i < old.cells.len() && (#[trigger] old.cells[i]).allows(e) && !self.cells[i].allows(
                    e,
                ) ==> #[trigger] old.excluded(i, e),
        ensures
            old.same_completions(self),
            self.keeps_settled(old),
    {
        assert forall|other: BoardView|
            #![trigger other.within(old)]
            other.settled() && other.within(old) implies other.within(self) by {
            assert forall|i: int| 0 <= i < other.cells.len() implies (#[trigger] other.cells[i]).within(
                self.cells[i],
            ) by {
                assert(other.cells[i].within(old.cells[i]));
                assert(self.cells[i].within(old.cells[i]));
                assert forall|e: int|
                    0 <= e < other.cells[i].possibilities.len()
                        && other.cells[i].possibilities[e] implies self.cells[i].possibilities[e] by {
                    if !self.cells[i].allows(e) {
                        assert(old.cells[i].allows(e));
                        old.lemma_excluded_from_settled(other, i, e);
                    }
                }
            }
        }
        assert forall|g: Seq<int>| old.completed_by(g) <==> self.completed_by(g) by {
            if self.completed_by(g) {
                self.lemma_within_completion(old, g);
            }
            if old.completed_by(g) {
                self.lemma_valid_grid_shape(old, g);
                assert forall|i: int| 0 <= i < self.cells.len() implies (#[trigger] self.cells[i]).allows(
                    g[i],
                ) by {
                    assert(old.cells[i].allows(g[i]));
                    if !self.cells[i].allows(g[i]) {
                        assert(old.excluded(i, g[i]));
                        let (set, k, j) = choose|set: DigitSet, k: int, j: int|
                            #![trigger old.number(set, k), old.at(set, j)]
                            old.has_region(set) && 0 <= k < old.cells_per_set && 0 <= j
                                < old.cells_per_set && k != j && old.number(set, k) == i && old.at(
                                set,
                                j,
                            ).determined() && old.at(set, j).digit() == g[i];
                        old.lemma_at(set, j);
                        old.lemma_determined_digit(g, old.number(set, j));
                        if k < j {
                            assert(g[old.number(set, k)] != g[old.number(set, j)]);
                        } else {
                            assert(g[old.number(set, j)] != g[old.number(set, k)]);
                        }
                    }
                }
            }
        }
    }

    /// Giving a digit its only home in a region loses no completion.
    pub proof fn lemma_single_home(self, set: DigitSet, d: int, k: int)
        requires
            self.wf(),
            self.has_region(set),
            0 <= d < self.cells_per_set,
            self.only_home(set, d, k),
        ensures
            self.same_completions(
                self.with_tile(self.number(set, k), CellView::single(self.cells_per_set, d)),
            ),
            self.with_tile(self.number(set, k), CellView::single(self.cells_per_set, d)).within(
                self,
            ),
            self.with_tile(self.number(set, k), CellView::single(self.cells_per_set, d)).wf(),
            self.with_tile(
                self.number(set, k),
                CellView::single(self.cells_per_set, d),
            ).keeps_settled(self),
    {
        let i = self.number(set, k);
        let new = self.with_tile(i, CellView::single(self.cells_per_set, d));
        self.lemma_at(set, k);
        CellView::lemma_single(self.cells_per_set, d);
        assert forall|other: BoardView|
            #![trigger other.within(self)]
            other.settled() && other.within(self) implies other.within(new) by {
            assert(other.has_region(set));
            assert(other.region_singles_placed(set));
            assert(other.digit_settled(set, d));
            let home = choose|home: int|
                0 <= home < other.cells_per_set && (#[trigger] other.at(set, home)).allows(d);
            self.lemma_at(set, home);
            assert(other.cells[other.number(set, home)].within(self.cells[self.number(set, home)]));
            assert(self.at(set, home).allows(d));
            assert(home == k);
            assert forall|j: int| 0 <= j < other.cells_per_set && j != k implies !(
            #[trigger] other.at(set, j)).allows(d) by {
                self.lemma_at(set, j);
                assert(other.cells[other.number(set, j)].within(self.cells[self.number(set, j)]));
                assert(!self.at(set, j).allows(d));
            }
            assert(other.only_home(set, d, k));
            assert(other.at(set, k).determined());
            other.at(set, k).lemma_determined();
            assert forall|x: int| 0 <= x < other.cells.len() implies (#[trigger] other.cells[x]).within(
                new.cells[x],
            ) by {
                assert(other.cells[x].within(self.cells[x]));
                if x != i {
                    assert(new.cells[x] == self.cells[x]);
                } else {
                    assert(other.cells[i] == other.at(set, k));
                    assert forall|e: int|
                        0 <= e < other.cells[i].possibilities.len()
                            && other.cells[i].possibilities[e] implies new.cells[i].possibilities[e] by {
                        assert(other.cells[i].allows(e));
                    }
                }
            }
        }
        assert forall|x: int| 0 <= x < new.cells.len() implies (#[trigger] new.cells[x]).within(
            self.cells[x],
        ) by {
            if x != i {
                assert(new.cells[x] == self.cells[x]);
            }
        }
        assert forall|x: int| 0 <= x < new.cells.len() implies (#[trigger] new.cells[x]).wf(
            new.cells_per_set,
        ) by {
            if x != i {
                assert(new.cells[x] == self.cells[x]);
            }
        }
        assert forall|g: Seq<int>| self.completed_by(g) <==> new.completed_by(g) by {
            if new.completed_by(g) {
                new.lemma_within_completion(self, g);
            }
            if self.completed_by(g) {
                new.lemma_valid_grid_shape(self, g);
                self.lemma_grid_has_digit(g, set, d);
                let k2 = choose|k2: int|
                    0 <= k2 < self.cells_per_set && g[#[trigger] self.number(set, k2)] == d;
                self.lemma_at(set, k2);
                assert(self.cells[self.number(set, k2)].allows(g[self.number(set, k2)]));
                assert(self.at(set, k2).allows(d));
                assert(k2 == k);
                assert forall|x: int| 0 <= x < new.cells.len() implies (#[trigger] new.cells[x]).allows(
                    g[x],
                ) by {
                    if x != i {
                        assert(new.cells[x] == self.cells[x]);
                        assert(self.cells[x].allows(g[x]));
                    }
                }
            }
        }
    }

    /// A board with a cell that allows nothing has no completion.
    pub proof fn lemma_dead_cell(self, i: int)
        requires
            0 <= i < self.cells.len(),
            self.cells[i].count() == 0,
        ensures
            !self.solvable(),
    {
        assert forall|g: Seq<int>| !self.completed_by(g) by {
            if self.completed_by(g) {
                assert(self.cells[i].allows(g[i]));
                lemma_count_zero(self.cells[i].possibilities);
            }
        }
    }

    /// A board with a region in which a digit has no home has no completion.
    pub proof fn lemma_dead_digit(self, set: DigitSet, d: int)
        requires
            self.wf(),
            self.has_region(set),
            0 <= d < self.cells_per_set,
            self.homeless(set, d),
        ensures
            !self.solvable(),
    {
        assert forall|g: Seq<int>| !self.completed_by(g) by {
            if self.completed_by(g) {
                self.lemma_grid_has_digit(g, set, d);
                let k = choose|k: int|
                    0 <= k < self.cells_per_set && g[#[trigger] self.number(set, k)] == d;
                self.lemma_at(set, k);
                assert(self.cells[self.number(set, k)].allows(g[self.number(set, k)]));
                assert(!self.at(set, k).allows(d));
            }
        }
    }

    /// A dead board stays dead whatever it loses.
    pub proof fn lemma_dead_kept(self, new: BoardView)
        requires
            self.wf(),
            new.within(self),
            self.dead(),
        ensures
            new.dead(),
    {
        if exists|i: int| 0 <= i < self.cells.len() && (#[trigger] self.cells[i]).count() == 0 {
            let i = choose|i: int|
                0 <= i < self.cells.len() && (#[trigger] self.cells[i]).count() == 0;
            assert(new.cells[i].within(self.cells[i]));
            lemma_count_within(new.cells[i].possibilities, self.cells[i].possibilities);
            assert(new.cells[i].count() == 0);
        } else {
            let (set, d) = choose|set: DigitSet, d: int|
                self.has_region(set) && 0 <= d < self.cells_per_set && #[trigger] self.homeless(
                    set,
                    d,
                );
            assert forall|k: int| 0 <= k < new.cells_per_set implies !(#[trigger] new.at(
                set,
                k,
            )).allows(d) by {
                self.lemma_at(set, k);
                assert(!self.at(set, k).allows(d));
                assert(new.cells[self.number(set, k)].within(self.cells[self.number(set, k)]));
            }
            assert(new.homeless(set, d));
            assert(new.has_region(set));
        }
    }

    /// A stable board is not dead.
    pub proof fn lemma_stable_alive(self)
        requires
            self.wf(),
            self.stable(),
        ensures
            !self.dead(),
    {
        if exists|i: int| 0 <= i < self.cells.len() && (#[trigger] self.cells[i]).count() == 0 {
            let i = choose|i: int|
                0 <= i < self.cells.len() && (#[trigger] self.cells[i]).count() == 0;
            self.lemma_side();
            let n = self.cells_per_set;
            lemma_flat_onto(n as int, i);
            let set = DigitSet::Row(n as usize, (i / (n as int)) as usize);
            assert(self.has_region(set));
            assert(self.region_reduced(set));
            assert(self.number(set, i % (n as int)) == i);
            assert(self.at(set, i % (n as int)).count() > 0);
        }
        if exists|set: DigitSet, d: int|
            self.has_region(set) && 0 <= d < self.cells_per_set && #[trigger] self.homeless(set, d) {
            let (set, d) = choose|set: DigitSet, d: int|
                self.has_region(set) && 0 <= d < self.cells_per_set && #[trigger] self.homeless(
                    set,
                    d,
                );
            assert(self.region_singles_placed(set));
            assert(self.digit_settled(set, d));
        }
    }

    /// A board that holds a digit twice in a region has no completion.
    pub proof fn lemma_contradiction(self)
        requires
            self.wf(),
            self.contradicts(),
        ensures
            !self.solvable(),
    {
        let set = choose|set: DigitSet| #[trigger]
            self.has_region(set) && self.region_contradicts(set);
        let (k1, k2) = choose|k1: int, k2: int|
            0 <= k1 < k2 < self.cells_per_set && (#[trigger] self.at(set, k1)).determined() && (
            #[trigger] self.at(set, k2)).determined() && self.at(set, k1).digit() == self.at(
                set,
                k2,
            ).digit();
        assert forall|g: Seq<int>| !self.completed_by(g) by {
            if self.completed_by(g) {
                self.lemma_at(set, k1);
                self.lemma_at(set, k2);
                self.lemma_determined_digit(g, self.number(set, k1));
                self.lemma_determined_digit(g, self.number(set, k2));
                assert(g[self.number(set, k1)] != g[self.number(set, k2)]);
            }
        }
    }

    /// Every cell of a solved board has one digit left.
    pub proof fn lemma_solved_cells(self, i: int)
        requires
            self.wf(),
            self.solved(),
            0 <= i < self.cells.len(),
        ensures
            self.cells[i].determined(),
            0 <= self.cells[i].digit() < self.cells_per_set,
    {
        let n = self.cells_per_set;
        lemma_flat_onto(n as int, i);
        self.lemma_side();
        let set = DigitSet::Row(n as usize, (i / (n as int)) as usize);
        assert(self.has_region(set));
        assert(self.region_solved(set));
        let k = i % (n as int);
        assert(self.number(set, k) == i);
        assert(self.at(set, k).determined());
        self.cells[i].lemma_determined();
    }
}

} // verus!
