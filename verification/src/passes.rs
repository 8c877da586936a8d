//! Applying a region algorithm to every row, column and box.

use vstd::prelude::*;
use crate::board::Board;
use crate::boolean_operation::BooleanOperation;
use crate::digit_set::DigitSet;
use crate::model::{nth_region, pass_stage, pass_value, BoardView};

verus! {

impl Board {
    /// Apply the given function to every row, col, and box. Returns the `BooleanOperation`'s 'combine' of each value.
    /// Iff `operation` is Lazy, the function might not be evaluated for every set.
    ///
    /// The pass ends with `None` at the first call that returns `None`. What
    /// it does to the board is what the calls do, one after the other: every
    /// predicate `p` of a stage of the pass, the fold of the results so far
    /// and the board that holds before the pass and that every call of `func`
    /// carries on to the stage that follows (`pass_stage`, `pass_value`) holds
    /// when the pass has ended, of stage `3 * n`, the result and the board
    /// as it is left.
    pub fn for_sets<F>(&mut self, func: F, operation: BooleanOperation) -> (r: Option<bool>) where
        F: Fn(&mut Self, DigitSet) -> Option<bool>,

        requires
            old(self)@.wf(),
            forall|a: &mut Board, set: DigitSet|
                a@.wf() && a@.same_shape(old(self)@) && a@.has_region(set)
                    ==> #[trigger] call_requires(func, (a, set)),
            forall|a: &mut Board, set: DigitSet, v: Option<bool>|
                a@.wf() && a@.same_shape(old(self)@) && a@.has_region(set) && #[trigger] call_ensures(
                    func,
                    (a, set),
                    v,
                ) ==> final(a)@.wf() && final(a)@.same_shape(a@),
        ensures
            final(self)@.wf(),
            final(self)@.same_shape(old(self)@),
            forall|p: spec_fn(int, Option<bool>, BoardView) -> bool|
                {
                    &&& #[trigger] p(0, Some(operation.spec_initial()), old(self)@)
                    &&& forall|j: int, acc: bool, a: &mut Board, set: DigitSet, v: Option<bool>|
                        0 <= j < 3 * old(self)@.cells_per_set && set == nth_region(
                            old(self)@.cells_per_set as usize,
                            j,
                        ) && a@.wf() && a@.same_shape(old(self)@) && #[trigger] p(j, Some(acc), a@)
                            && #[trigger] call_ensures(func, (a, set), v) ==> p(
                            pass_stage(operation, old(self)@.cells_per_set as usize, j, acc, v),
                            pass_value(operation, acc, v),
                            final(a)@,
                        )
                } ==> p(3 * old(self)@.cells_per_set as int, r, final(self)@),
    {
        let n = self.cells_per_set();
        let mut acc = operation.initial();
        let mut kind: usize = 0;
        let mut i: usize = 0;
        let ghost mut j: int = 0;
        proof {
            self.lemma_countable();
            assert(3 * n <= usize::MAX) by (nonlinear_arith)
                requires
                    n * n <= usize::MAX,
                    usize::MAX >= 0xffff_ffff,
            ;
        }
        while kind < 3 && n > 0
            invariant
                n == old(self)@.cells_per_set,
                self@.wf(),
                self@.same_shape(old(self)@),
                kind <= 3,
                kind < 3 && n > 0 ==> i < n,
                kind == 3 ==> i == 0,
                3 * n <= usize::MAX,
                n > 0 && kind == 0 ==> j == i,
                n > 0 && kind == 1 ==> j == n + i,
                n > 0 && kind == 2 ==> j == 2 * n + i,
                n > 0 && kind == 3 ==> j == 3 * n,
                n == 0 ==> j == 0,
                forall|a: &mut Board, set: DigitSet|
                    a@.wf() && a@.same_shape(old(self)@) && a@.has_region(set)
                        ==> #[trigger] call_requires(func, (a, set)),
                forall|a: &mut Board, set: DigitSet, v: Option<bool>|
                    a@.wf() && a@.same_shape(old(self)@) && a@.has_region(set) && #[trigger] call_ensures(
                        func,
                        (a, set),
                        v,
                    ) ==> final(a)@.wf() && final(a)@.same_shape(a@),
                forall|p: spec_fn(int, Option<bool>, BoardView) -> bool|
                    {
                        &&& #[trigger] p(0, Some(operation.spec_initial()), old(self)@)
                        &&& forall|j: int, acc: bool, a: &mut Board, set: DigitSet, v: Option<bool>|
                            0 <= j < 3 * old(self)@.cells_per_set && set == nth_region(
                                old(self)@.cells_per_set as usize,
                                j,
                            ) && a@.wf() && a@.same_shape(old(self)@) && #[trigger] p(
                                j,
                                Some(acc),
                                a@,
                            ) && #[trigger] call_ensures(func, (a, set), v) ==> p(
                                pass_stage(operation, old(self)@.cells_per_set as usize, j, acc, v),
                                pass_value(operation, acc, v),
                                final(a)@,
                            )
                    } ==> p(j, Some(acc), self@),
            decreases 3 - kind, n - i,
        {
            let set = if kind == 0 {
                DigitSet::Row(n, i)
            } else if kind == 1 {
                DigitSet::Col(n, i)
            } else {
                DigitSet::Box(n, i)
            };
            assert(set == nth_region(n, j));
            let ghost before = self@;
            let ghost acc0 = acc;
            let v = func(self, set);
            proof {
                assert forall|p: spec_fn(int, Option<bool>, BoardView) -> bool|
                    {
                        &&& #[trigger] p(0, Some(operation.spec_initial()), old(self)@)
                        &&& forall|j: int, acc: bool, a: &mut Board, set: DigitSet, v: Option<bool>|
                            0 <= j < 3 * old(self)@.cells_per_set && set == nth_region(
                                old(self)@.cells_per_set as usize,
                                j,
                            ) && a@.wf() && a@.same_shape(old(self)@) && #[trigger] p(
                                j,
                                Some(acc),
                                a@,
                            ) && #[trigger] call_ensures(func, (a, set), v) ==> p(
                                pass_stage(operation, old(self)@.cells_per_set as usize, j, acc, v),
                                pass_value(operation, acc, v),
                                final(a)@,
                            )
                    } implies p(pass_stage(operation, n, j, acc0, v), pass_value(operation, acc0, v), self@) by {
                    assert(p(j, Some(acc0), before));
                }
            }
            match v {
                None => {
                    return None;
                },
                Some(value) => {
                    acc = operation.combine(acc, value);
                    if operation.is_lazy() && acc != operation.initial() {
                        return Some(acc);
                    }
                },
            }
            i += 1;
            proof {
                j = j + 1;
            }
            if i == n {
                kind += 1;
                i = 0;
            }
        }
        Some(acc)
    }
}

} // verus!
