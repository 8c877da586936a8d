//! Solving a board: propagation and search in turn.

use vstd::prelude::*;
use crate::board::Board;
use crate::model::BoardView;
use crate::search::{search_bound, stack_bound, views, Outcome};

verus! {

impl BoardView {
    /// What a search that began on the board `self` has come to: a solved
    /// board that allows nothing that `self` forbids, if `self` has a
    /// completion, and the verdict that it has none otherwise. The cells
    /// that were solved at the start are as they were, whatever the
    /// verdict, and a board that was solved at the start is left as it was.
    pub open spec fn searched(self, after: BoardView, outcome: Outcome) -> bool {
        &&& after.wf()
        &&& after.within(self)
        &&& after.keeps_solved(self)
        &&& outcome is Solved <==> self.solvable()
        &&& outcome is Solved ==> after.solved() && self.completed_by(after.grid())
        &&& self.contradicts() ==> outcome is Unsolvable
        &&& self.solved() ==> after == self
    }
}

impl Board {
    /// One round of propagation: the check for a digit held twice, then the
    /// reduction loop; the fused loop if `fast` is set. `false` says that
    /// the board has no completion.
    ///
    /// A board that holds a digit twice is left as it is. Any other board
    /// is propagated to a standstill: it ends stable, or dead.
    pub fn propagate(&mut self, fast: bool) -> (alive: bool)
        requires
            old(self)@.wf(),
        ensures
            final(self)@.propagated_from(old(self)@),
            alive ==> final(self)@.stable(),
            !alive ==> !final(self)@.solvable(),
            !alive && !old(self)@.contradicts() ==> final(self)@.dead(),
            old(self)@.contradicts() ==> !alive && final(self)@ == old(self)@,
            !old(self)@.contradicts() && fast ==> old(self)@.fast_reduced_to(
                final(self)@,
                if alive {
                    Some(())
                } else {
                    None
                },
            ),
            !old(self)@.contradicts() && !fast ==> old(self)@.reduced_to(
                final(self)@,
                if alive {
                    Some(final(self)@.newly_solved(old(self)@))
                } else {
                    None
                },
            ),
            old(self)@.solved() ==> alive && final(self)@ == old(self)@,
    {
        proof {
            self@.lemma_propagated_self();
        }
        if self.has_contradiction() {
            proof {
                self@.lemma_contradiction();
                if self@.solved() {
                    self@.lemma_solved_completes();
                }
            }
            return false;
        }
        proof {
            if self@.solved() {
                self@.lemma_solved_stable();
            }
        }
        let reduced = if fast {
            self.fast_reduction_loop().is_some()
        } else {
            self.reduce_and_check_singles_loop().is_some()
        };
        reduced
    }

    /// The search for a completion, with the reduction loop that `fast`
    /// chooses.
    pub fn search(&mut self, fast: bool) -> (outcome: Outcome)
        requires
            old(self)@.wf(),
        ensures
            old(self)@.searched(final(self)@, outcome),
    {
        let ghost start = self@;
        let mut states_before_guesses: Vec<Board> = Vec::new();
        proof {
            assert(views(states_before_guesses@) =~= Seq::<BoardView>::empty());
            assert(start.frontier(self@, views(states_before_guesses@))) by {
                assert forall|i: int| 0 <= i < start.cells.len() implies (
                #[trigger] start.cells[i]).within(start.cells[i]) by {}
            }
        }
        let ghost mut first = true;
        loop
            invariant
                start == old(self)@,
                start.wf(),
                start.frontier(self@, views(states_before_guesses@)),
                first ==> self@ == start && states_before_guesses@.len() == 0,
                !first ==> !start.solved() && !start.contradicts(),
            decreases search_bound(self@.total()) + stack_bound(views(states_before_guesses@)),
        {
            let ghost before = self@;
            let ghost stack = views(states_before_guesses@);
            //Find hidden and naked singles, and check if the puzzle is unsolvable.
            let alive = self.propagate(fast);
            proof {
                start.lemma_frontier_propagated(before, stack, self@);
            }
            if !alive {
                let ghost dead = self@;
                if self.backtrack(&mut states_before_guesses).is_none() {
                    proof {
                        start.lemma_frontier_empty(dead, stack);
                    }
                    return Outcome::Unsolvable;
                }
                proof {
                    start.lemma_frontier_backtrack(dead, stack);
                    first = false;
                }
            } else if self.is_solved() {
                proof {
                    self@.lemma_solved_completes();
                    self@.lemma_within_completion(start, self@.grid());
                    if start.contradicts() {
                        start.lemma_contradiction();
                    }
                }
                return Outcome::Solved;
            } else {
                let ghost here = self@;
                if self.guess_or_backtrack(&mut states_before_guesses).is_none() {
                    proof {
                        start.lemma_frontier_empty(here, stack);
                    }
                    return Outcome::Unsolvable;
                }
                proof {
                    assert(start.frontier(here, stack));
                    first = false;
                }
            }
        }
    }

    /// Calls `reduce_possibilities` and `check_single_location`, then guesses and backtracks if those aren't enough
    ///
    /// The board ends up solved, within what it allowed at the start, if it
    /// has a completion; otherwise the outcome is `Unsolvable`.
    pub fn solve(&mut self) -> (outcome: Outcome)
        requires
            old(self)@.wf(),
        ensures
            old(self)@.searched(final(self)@, outcome),
    {
        self.search(false)
    }

    /// Same logic as `solve()`, but combines loops to make it faster (though less readable)
    pub fn fast_solve(&mut self) -> (outcome: Outcome)
        requires
            old(self)@.wf(),
        ensures
            old(self)@.searched(final(self)@, outcome),
    {
        self.search(true)
    }
}

} // verus!
