//! Checking a region, and the board, for completion and for contradiction.

use vstd::prelude::*;
use crate::board::Board;
use crate::boolean_operation::BooleanOperation;
use crate::digit_set::DigitSet;
use crate::model::{lemma_nth_region, lemma_nth_region_fits, nth_region, pass_stage, pass_value,
    BoardView};

verus! {

/// `n` flags, none of them set.
pub fn cleared_flags(n: usize) -> (flags: Vec<bool>)
    ensures
        flags.len() == n,
        forall|d: int| 0 <= d < n ==> !flags[d],
{
    let mut flags: Vec<bool> = Vec::with_capacity(n);
    let mut i: usize = 0;
    while i < n
        invariant
            i <= n,
            flags.len() == i,
            forall|d: int| 0 <= d < i ==> !flags[d],
        decreases n - i,
    {
        flags.push(false);
        i += 1;
    }
    flags
}

impl BoardView {
    /// Among the first `k` cells of the region, `d` is held by one with one
    /// digit left.
    pub open spec fn used_before(self, set: DigitSet, k: int, d: int) -> bool {
        exists|j: int|
            0 <= j < k && (#[trigger] self.at(set, j)).determined() && self.at(set, j).digit() == d
    }

    /// Among the first `k` cells of the region, no two with one digit left
    /// hold the same digit.
    pub open spec fn distinct_before(self, set: DigitSet, k: int) -> bool {
        forall|k1: int, k2: int|
            0 <= k1 < k2 < k && (#[trigger] self.at(set, k1)).determined() && (#[trigger] self.at(
                set,
                k2,
            )).determined() ==> self.at(set, k1).digit() != self.at(set, k2).digit()
    }

    /// What a pass that asks every region whether it is solved knows at
    /// stage `j`: the board is as it was, and the fold so far says whether
    /// the regions before `j` are all solved.
    pub open spec fn solved_pass(self) -> spec_fn(int, Option<bool>, BoardView) -> bool {
        |j: int, v: Option<bool>, b: BoardView|
            b == self && v == Some(
                forall|i: int|
                    0 <= i < j ==> self.region_solved(
                        #[trigger] nth_region(self.cells_per_set as usize, i),
                    ),
            )
    }

    /// What a pass that asks every region whether it holds a digit twice
    /// knows at stage `j`.
    pub open spec fn contradiction_pass(self) -> spec_fn(int, Option<bool>, BoardView) -> bool {
        |j: int, v: Option<bool>, b: BoardView|
            b == self && v == Some(
                exists|i: int|
                    0 <= i < j && self.region_contradicts(
                        #[trigger] nth_region(self.cells_per_set as usize, i),
                    ),
            )
    }
}

impl Board {
    /// Whether two solved cells of the region hold the same digit. The board
    /// is left as it is.
    pub fn has_contradiction_set(&mut self, set: DigitSet) -> (r: Option<bool>)
        requires
            old(self)@.wf(),
            old(self)@.has_region(set),
        ensures
            final(self)@ == old(self)@,
            r == Some(old(self)@.region_contradicts(set)),
    {
        let n = self.cells_per_set();
        let mut used = cleared_flags(n);
        let mut indices = self.iter_indices(set);
        proof {
            self.lemma_iter_wf(set);
        }
        loop
            invariant
                self@ == old(self)@,
                self@.wf(),
                self@.has_region(set),
                n == self@.cells_per_set,
                indices.wf(),
                indices == (crate::index_iterator::IndexIterator {
                    current: indices.current,
                    ..self.spec_iter_indices(set)
                }),
                indices.current <= n,
                used.len() == n,
                forall|d: int| 0 <= d < n ==> used[d] == self@.used_before(set, indices.current as int, d),
                self@.distinct_before(set, indices.current as int),
            ensures
                indices.current == n,
            decreases n - indices.current,
        {
            let ghost k = indices.current as int;
            match indices.next() {
                None => {
                    break ;
                },
                Some(location) => {
                    proof {
                        self.lemma_iter(set, k);
                    }
                    let cell = self.get(location);
                    assert(cell@ == self@.at(set, k));
                    if let Some(digit) = cell.get_single_index() {
                        if used[digit] {
                            return Some(true);
                        }
                        used.set(digit, true);
                    }
                    proof {
                        assert forall|d: int| 0 <= d < n implies used[d] == self@.used_before(
                            set,
                            k + 1,
                            d,
                        ) by {
                            if self@.used_before(set, k, d) {
                                let j = choose|j: int|
                                    0 <= j < k && (#[trigger] self@.at(set, j)).determined()
                                        && self@.at(set, j).digit() == d;
                                assert(self@.at(set, j).determined());
                            }
                        }
                    }
                },
            }
        }
        Some(false)
    }

    /// Checks if the given set has the digits 1 through 9 once each.
    ///
    /// That is: whether every cell of the region is solved and no two hold
    /// the same digit. The board is left as it is.
    pub fn check_solved_set(&mut self, set: DigitSet) -> (r: Option<bool>)
        requires
            old(self)@.wf(),
            old(self)@.has_region(set),
        ensures
            final(self)@ == old(self)@,
            r == Some(old(self)@.region_solved(set)),
    {
        let n = self.cells_per_set();
        let mut used = cleared_flags(n);
        let mut all_solved = true;
        let mut indices = self.iter_indices(set);
        proof {
            self.lemma_iter_wf(set);
        }
        loop
            invariant
                self@ == old(self)@,
                self@.wf(),
                self@.has_region(set),
                n == self@.cells_per_set,
                indices.wf(),
                indices == (crate::index_iterator::IndexIterator {
                    current: indices.current,
                    ..self.spec_iter_indices(set)
                }),
                indices.current <= n,
                used.len() == n,
                forall|d: int| 0 <= d < n ==> used[d] == self@.used_before(set, indices.current as int, d),
                self@.distinct_before(set, indices.current as int),
                all_solved == (forall|j: int|
                    0 <= j < indices.current ==> (#[trigger] self@.at(set, j)).determined()),
            ensures
                indices.current == n,
            decreases n - indices.current,
        {
            let ghost k = indices.current as int;
            match indices.next() {
                None => {
                    break ;
                },
                Some(location) => {
                    proof {
                        self.lemma_iter(set, k);
                    }
                    let cell = self.get(location);
                    assert(cell@ == self@.at(set, k));
                    if let Some(solved) = cell.get_single_index() {
                        if used[solved] {
                            proof {
                                let j = choose|j: int|
                                    0 <= j < k && (#[trigger] self@.at(set, j)).determined()
                                        && self@.at(set, j).digit() == solved;
                                assert(self@.at(set, j).digit() == self@.at(set, k).digit());
                            }
                            return Some(false);
                        } else {
                            used.set(solved, true);
                        }
                    } else {
                        all_solved = false;
                    }
                    proof {
                        assert forall|d: int| 0 <= d < n implies used[d] == self@.used_before(
                            set,
                            k + 1,
                            d,
                        ) by {
                            if self@.used_before(set, k, d) {
                                let j = choose|j: int|
                                    0 <= j < k && (#[trigger] self@.at(set, j)).determined()
                                        && self@.at(set, j).digit() == d;
                                assert(self@.at(set, j).determined());
                            }
                        }
                    }
                },
            }
        }
        Some(all_solved)
    }

    /// Whether every row, column and box is solved. The board is left as it is.
    pub fn is_solved(&mut self) -> (r: bool)
        requires
            old(self)@.wf(),
        ensures
            final(self)@ == old(self)@,
            r == old(self)@.solved(),
    {
        let ghost before = self@;
        let ghost n = before.cells_per_set as usize;
        let ghost p = before.solved_pass();
        proof {
            self.lemma_countable();
            assert(3 * n <= usize::MAX) by (nonlinear_arith)
                requires
                    n * n <= usize::MAX,
                    usize::MAX >= 0xffff_ffff,
            ;
            assert(p(0, Some(BooleanOperation::AndLazy.spec_initial()), before));
            assert forall|j: int, acc: bool, a: &mut Board, set: DigitSet, v: Option<bool>|
                0 <= j < 3 * before.cells_per_set && set == nth_region(n, j) && a@.wf()
                    && a@.same_shape(before) && #[trigger] p(j, Some(acc), a@)
                    && #[trigger] call_ensures(Board::check_solved_set, (a, set), v) implies p(
                pass_stage(BooleanOperation::AndLazy, n, j, acc, v),
                pass_value(BooleanOperation::AndLazy, acc, v),
                final(a)@,
            ) by {
                lemma_nth_region_fits(n, j);
                assert(v == Some(before.region_solved(nth_region(n, j))));
            }
        }
        let r = self.for_sets(Board::check_solved_set, BooleanOperation::AndLazy);
        proof {
            assert(p(3 * n, r, self@));
            assert forall|set: DigitSet| #[trigger] before.has_region(set) && r
                == Some(true) implies before.region_solved(set) by {
                lemma_nth_region(n, set);
            }
            if r == Some(false) {
                let i = choose|i: int|
                    0 <= i < 3 * n && !before.region_solved(#[trigger] nth_region(n, i));
                lemma_nth_region_fits(n, i);
                assert(before.has_region(nth_region(n, i)));
            }
        }
        r.unwrap()
    }

    /// Whether some row, column or box holds a digit twice among its solved
    /// cells. The board is left as it is.
    pub fn has_contradiction(&mut self) -> (r: bool)
        requires
            old(self)@.wf(),
        ensures
            final(self)@ == old(self)@,
            r == old(self)@.contradicts(),
    {
        let ghost before = self@;
        let ghost n = before.cells_per_set as usize;
        let ghost p = before.contradiction_pass();
        proof {
            self.lemma_countable();
            assert(3 * n <= usize::MAX) by (nonlinear_arith)
                requires
                    n * n <= usize::MAX,
                    usize::MAX >= 0xffff_ffff,
            ;
            assert(p(0, Some(BooleanOperation::OrLazy.spec_initial()), before));
            assert forall|j: int, acc: bool, a: &mut Board, set: DigitSet, v: Option<bool>|
                0 <= j < 3 * before.cells_per_set && set == nth_region(n, j) && a@.wf()
                    && a@.same_shape(before) && #[trigger] p(j, Some(acc), a@)
                    && #[trigger] call_ensures(Board::has_contradiction_set, (a, set), v) implies p(
                pass_stage(BooleanOperation::OrLazy, n, j, acc, v),
                pass_value(BooleanOperation::OrLazy, acc, v),
                final(a)@,
            ) by {
                lemma_nth_region_fits(n, j);
                assert(v == Some(before.region_contradicts(nth_region(n, j))));
            }
        }
        let r = self.for_sets(Board::has_contradiction_set, BooleanOperation::OrLazy);
        proof {
            assert(p(3 * n, r, self@));
            if r == Some(true) {
                let i = choose|i: int|
                    0 <= i < 3 * n && before.region_contradicts(#[trigger] nth_region(n, i));
                lemma_nth_region_fits(n, i);
                assert(before.has_region(nth_region(n, i)));
            }
            if before.contradicts() {
                let set = choose|set: DigitSet| #[trigger]
                    before.has_region(set) && before.region_contradicts(set);
                lemma_nth_region(n, set);
            }
        }
        r.unwrap()
    }
}

} // verus!
