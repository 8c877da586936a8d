//! The search: guessing a digit where propagation stands still, and going
//! back to the board before the guess where a guess has failed.

use vstd::prelude::*;
use crate::board::Board;
use crate::cell::{Cell, CellView};
use crate::completions::lemma_total_count_strict;
use crate::counting::{count_true, lemma_count_positive, lemma_count_update};
use crate::digit_set::DigitSet;
use crate::geometry::{flat, lemma_flat_bounds};
use crate::index_iterator::IndexIterator;
use crate::location::Location;
use crate::model::BoardView;

verus! {

/// How a search for a completion of a board has ended.
#[derive(Clone, Copy, PartialEq, Eq, Structural, Debug)]
pub enum Outcome {
    /// The board is completed: every row, column and box is solved.
    Solved,
    /// The board has no completion.
    Unsolvable,
}

/// The number of boards that a search which begins on a board with `total`
/// possibilities can come to at most.
pub open spec fn search_bound(total: nat) -> nat
    decreases total,
{
    if total == 0 {
        1
    } else {
        2 * search_bound((total - 1) as nat) + 1
    }
}

/// The bound is one at least, and grows with the number of possibilities.
pub proof fn lemma_search_bound_grows(a: nat, b: nat)
    requires
        a <= b,
    ensures
        1 <= search_bound(a) <= search_bound(b),
    decreases b,
{
    if a < b {
        lemma_search_bound_grows(a, (b - 1) as nat);
    } else if a > 0 {
        lemma_search_bound_grows((a - 1) as nat, (a - 1) as nat);
    }
}

/// What is left of the search for the boards set aside.
pub open spec fn stack_bound(stack: Seq<BoardView>) -> nat
    decreases stack.len(),
{
    if stack.len() == 0 {
        0
    } else {
        stack_bound(stack.drop_last()) + search_bound(stack.last().total())
    }
}

/// The views of the boards set aside.
pub open spec fn views(stack: Seq<Board>) -> Seq<BoardView> {
    stack.map_values(|b: Board| b@)
}

impl CellView {
    /// This cell without digit `d`.
    pub open spec fn forbidding(self, d: int) -> CellView {
        let possibilities = self.possibilities.update(d, false);
        CellView { possibilities, solved: count_true(possibilities) == 1 }
    }
}

impl BoardView {
    /// The board on which the cell numbered `i` holds digit `d`.
    pub open spec fn guessing(self, i: int, d: int) -> BoardView {
        self.with_tile(i, CellView::single(self.cells_per_set, d))
    }

    /// The board on which the cell numbered `i` has lost digit `d`.
    pub open spec fn refusing(self, i: int, d: int) -> BoardView {
        self.with_tile(i, self.cells[i].forbidding(d))
    }

    /// The boards that a search holds all come from `self` and have kept
    /// its solved cells, and between them they have every completion of
    /// `self`.
    pub open spec fn frontier(self, current: BoardView, stack: Seq<BoardView>) -> bool {
        &&& current.wf()
        &&& current.within(self)
        &&& current.keeps_solved(self)
        &&& forall|k: int|
            0 <= k < stack.len() ==> (#[trigger] stack[k]).wf() && stack[k].within(self)
                && stack[k].keeps_solved(self)
        &&& forall|g: Seq<int>|
            #![trigger self.completed_by(g)]
            self.completed_by(g) ==> current.completed_by(g) || exists|k: int|
                0 <= k < stack.len() && (#[trigger] stack[k]).completed_by(g)
    }

    /// A guess splits the completions of a board between the board with the
    /// guess made and the board with the guess refused.
    pub proof fn lemma_guess(self, i: int, d: int)
        requires
            self.wf(),
            0 <= i < self.cells.len(),
            self.cells[i].allows(d),
            !self.cells[i].solved,
        ensures
            self.guessing(i, d).wf(),
            self.refusing(i, d).wf(),
            self.guessing(i, d).within(self),
            self.refusing(i, d).within(self),
            self.guessing(i, d).total() < self.total(),
            self.refusing(i, d).total() < self.total(),
            forall|g: Seq<int>|
                self.completed_by(g) ==> self.guessing(i, d).completed_by(g) || self.refusing(
                    i,
                    d,
                ).completed_by(g),
    {
        let n = self.cells_per_set;
        let yes = self.guessing(i, d);
        let no = self.refusing(i, d);
        let cell = self.cells[i];
        assert(cell.wf(n));
        CellView::lemma_single(n, d);
        lemma_count_update(cell.possibilities, d, false);
        lemma_count_positive(cell.possibilities, d);
        assert forall|x: int| 0 <= x < self.cells.len() implies {
            &&& (#[trigger] yes.cells[x]).wf(n)
            &&& yes.cells[x].within(self.cells[x])
        } by {
            if x != i {
                assert(yes.cells[x] == self.cells[x]);
                assert(self.cells[x].wf(n));
            }
        }
        assert forall|x: int| 0 <= x < self.cells.len() implies {
            &&& (#[trigger] no.cells[x]).wf(n)
            &&& no.cells[x].within(self.cells[x])
        } by {
            if x != i {
                assert(no.cells[x] == self.cells[x]);
                assert(self.cells[x].wf(n));
            }
        }
        lemma_total_count_strict(yes.cells, self.cells, i);
        lemma_total_count_strict(no.cells, self.cells, i);
        assert forall|g: Seq<int>| self.completed_by(g) implies yes.completed_by(g)
            || no.completed_by(g) by {
            yes.lemma_valid_grid_shape(self, g);
            no.lemma_valid_grid_shape(self, g);
            if g[i] == d {
                assert forall|x: int| 0 <= x < yes.cells.len() implies (#[trigger] yes.cells[x]).allows(
                    g[x],
                ) by {
                    if x != i {
                        assert(yes.cells[x] == self.cells[x]);
                        assert(self.cells[x].allows(g[x]));
                    }
                }
            } else {
                assert forall|x: int| 0 <= x < no.cells.len() implies (#[trigger] no.cells[x]).allows(
                    g[x],
                ) by {
                    assert(self.cells[x].allows(g[x]));
                    if x != i {
                        assert(no.cells[x] == self.cells[x]);
                    }
                }
            }
        }
    }

    /// A board whose cells are all solved, but which is not solved, has no
    /// completion.
    pub proof fn lemma_filled_unsolved(self)
        requires
            self.wf(),
            forall|i: int| 0 <= i < self.cells.len() ==> (#[trigger] self.cells[i]).solved,
            !self.solved(),
        ensures
            !self.solvable(),
    {
        let set = choose|set: DigitSet| #[trigger] self.has_region(set) && !self.region_solved(set);
        assert forall|k: int| 0 <= k < self.cells_per_set implies (#[trigger] self.at(
            set,
            k,
        )).determined() by {
            self.lemma_at(set, k);
            assert(self.cells[self.number(set, k)].solved);
        }
        let (k1, k2) = choose|k1: int, k2: int|
            0 <= k1 < k2 < self.cells_per_set && (#[trigger] self.at(set, k1)).digit() == (
            #[trigger] self.at(set, k2)).digit();
        assert(self.at(set, k1).determined() && self.at(set, k2).determined());
        assert(self.region_contradicts(set));
        assert(self.contradicts());
        self.lemma_contradiction();
    }

    /// A solved board is its own completion.
    pub proof fn lemma_solved_completes(self)
        requires
            self.wf(),
            self.solved(),
        ensures
            self.completed_by(self.grid()),
            self.solvable(),
    {
        let g = self.grid();
        assert forall|i: int| 0 <= i < g.len() implies 0 <= #[trigger] g[i] < self.cells_per_set
            && self.cells[i].allows(g[i]) by {
            self.lemma_solved_cells(i);
            self.cells[i].lemma_determined();
        }
        assert forall|set: DigitSet, k1: int, k2: int|
            self.has_region(set) && 0 <= k1 < k2 < self.cells_per_set implies g[#[trigger] self.number(
            set,
            k1,
        )] != g[#[trigger] self.number(set, k2)] by {
            self.lemma_at(set, k1);
            self.lemma_at(set, k2);
            assert(self.region_solved(set));
            assert(self.at(set, k1).digit() != self.at(set, k2).digit());
        }
        assert(self.valid_grid(g));
        assert(self.admits(g)) by {
            assert forall|i: int| 0 <= i < self.cells.len() implies (#[trigger] self.cells[i]).allows(
                g[i],
            ) by {
                assert(0 <= g[i] < self.cells_per_set);
            }
        }
    }
}

impl BoardView {
    /// The cell numbered `i` is where a guess is made: it is unsolved, no
    /// unsolved cell before it has as few digits left, and if it has more
    /// than two, none after it has fewer. (The scan stops at the first cell
    /// with two digits left, or with none.)
    pub open spec fn guess_cell(self, i: int) -> bool {
        &&& 0 <= i < self.cells.len()
        &&& !self.cells[i].solved
        &&& forall|x: int|
            0 <= x < i && !(#[trigger] self.cells[x]).solved ==> self.cells[x].count()
                > self.cells[i].count() && self.cells[x].count() != 2 && self.cells[x].count() != 0
        &&& self.cells[i].count() != 2 && self.cells[i].count() != 0 ==> forall|x: int|
            i < x < self.cells.len() && !(#[trigger] self.cells[x]).solved ==> self.cells[x].count()
                >= self.cells[i].count()
    }
}

impl Board {
    /// The unsolved cell with the fewest possibilities, the first of them in
    /// row-major order; `Invalid` if every cell is solved.
    pub fn fewest_possibilities(&self) -> (r: Location)
        requires
            self@.wf(),
        ensures
            !(r is Duplicate),
            r is Invalid <==> forall|i: int|
                0 <= i < self@.cells.len() ==> (#[trigger] self@.cells[i]).solved,
            r matches Location::Valid(row, col) ==> r.in_grid(self@.cells_per_set)
                && self@.guess_cell(flat(self@.cells_per_set as int, row as int, col as int)),
    {
        let n = self.cells_per_set();
        let all = DigitSet::All(n);
        let mut guess_location = Location::Invalid;
        let mut min_possibilities: usize = 0;
        let ghost mut at: int = 0;
        let mut indices = self.iter_indices(all);
        proof {
            self.lemma_iter_wf(all);
        }
        let ghost total = self@.cells.len();
        loop
            invariant
                self@.wf(),
                n == self@.cells_per_set,
                all == DigitSet::All(n),
                total == self@.cells.len(),
                indices.wf(),
                indices == (IndexIterator { current: indices.current, ..self.spec_iter_indices(all) }),
                indices.current <= total,
                !(guess_location is Duplicate),
                guess_location is Invalid ==> forall|x: int|
                    0 <= x < indices.current ==> (#[trigger] self@.cells[x]).solved,
                guess_location matches Location::Valid(row, col) ==> {
                    &&& guess_location.in_grid(n as nat)
                    &&& at == flat(n as int, row as int, col as int)
                    &&& 0 <= at < indices.current
                    &&& !self@.cells[at].solved
                    &&& min_possibilities == self@.cells[at].count()
                    &&& min_possibilities != 2 && min_possibilities != 0
                    &&& forall|x: int|
                        0 <= x < at && !(#[trigger] self@.cells[x]).solved ==> self@.cells[x].count()
                            > min_possibilities && self@.cells[x].count() != 2
                            && self@.cells[x].count() != 0
                    &&& forall|x: int|
                        at < x < indices.current && !(#[trigger] self@.cells[x]).solved
                            ==> self@.cells[x].count() >= min_possibilities
                            && self@.cells[x].count() != 2 && self@.cells[x].count() != 0
                },
            ensures
                indices.current == total,
            decreases total - indices.current,
        {
            let ghost k = indices.current as int;
            match indices.next() {
                None => {
                    break ;
                },
                Some(location) => {
                    proof {
                        self.lemma_iter(all, k);
                        crate::geometry::lemma_all_cell_number(
                            n,
                            self@.rows_per_box as int,
                            self@.cols_per_box as int,
                            k,
                        );
                    }
                    let cell = self.get(location);
                    assert(cell@ == self@.cells[k]);
                    let current_possibilities = cell.num_possibilities();
                    let better = match guess_location {
                        Location::Valid(_, _) => current_possibilities < min_possibilities,
                        _ => true,
                    };
                    if !cell.solved && better {
                        min_possibilities = current_possibilities;
                        guess_location = location;
                        proof {
                            at = k;
                        }
                        //Can't do better than two possibilities
                        //(unless the digit is solved, and we made sure it isn't)
                        //If current_possibilities was 0 that means there's a contradiction
                        if min_possibilities == 2 || min_possibilities == 0 {
                            return guess_location;
                        }
                    }
                },
            }
        }
        guess_location
    }

    /// Makes a guess: the cell at `location` is taken to hold digit `index`.
    ///
    /// Before that, the board on which the cell has lost that digit is set
    /// aside, so that a return to it does not make the guess again.
    pub fn make_guess(&mut self, states_before_guesses: &mut Vec<Board>, location: Location, index: usize)
        requires
            old(self)@.wf(),
            location matches Location::Valid(r, c) && location.in_grid(old(self)@.cells_per_set)
                && old(self)@.cell(r as int, c as int).allows(index as int) && !old(self)@.cell(
                r as int,
                c as int,
            ).solved,
        ensures
            location matches Location::Valid(r, c) && ({
                let i = flat(old(self)@.cells_per_set as int, r as int, c as int);
                &&& final(self)@ == old(self)@.guessing(i, index as int)
                &&& final(states_before_guesses)@.len() == old(states_before_guesses)@.len() + 1
                &&& views(final(states_before_guesses)@) == views(old(states_before_guesses)@).push(
                    old(self)@.refusing(i, index as int),
                )
            }),
    {
        let n = self.cells_per_set();
        let ghost before = self@;
        let ghost i = match location {
            Location::Valid(r, c) => flat(n as int, r as int, c as int),
            _ => 0,
        };
        proof {
            match location {
                Location::Valid(r, c) => {
                    lemma_flat_bounds(n as int, r as int, c as int);
                },
                _ => {},
            }
        }
        let cell = self.get_mut(location);
        //Remove the possibility of this guess for backtracking purposes
        cell.possibilities.set(index, false);
        cell.check_newly_solved();
        assert(cell@ == before.cells[i].forbidding(index as int));
        assert(self@ == before.refusing(i, index as int)) by {
            assert(self@.cells =~= before.refusing(i, index as int).cells);
        }
        //Add a copy of the board in case we need to backtrack
        let snapshot = self.clone();
        states_before_guesses.push(snapshot);
        assert(views(states_before_guesses@) =~= views(old(states_before_guesses)@).push(
            before.refusing(i, index as int),
        ));
        proof {
            before.lemma_guess(i, index as int);
        }
        //Make a solved version of the cell and put it into self
        let solved = Cell::new_single_digit(n, index);
        self.set(location, solved);
        assert(self@ == before.guessing(i, index as int)) by {
            assert(self@.cells =~= before.guessing(i, index as int).cells);
        }
    }

    /// Goes back to the board that was set aside last, if there is one.
    pub fn backtrack(&mut self, states_before_guesses: &mut Vec<Board>) -> (r: Option<()>)
        ensures
            r is Some <==> old(states_before_guesses)@.len() > 0,
            r is Some ==> final(self)@ == views(old(states_before_guesses)@).last() && views(
                final(states_before_guesses)@,
            ) == views(old(states_before_guesses)@).drop_last(),
            r is None ==> final(self)@ == old(self)@ && final(states_before_guesses)@ == old(
                states_before_guesses,
            )@,
    {
        if let Some(previous_state) = states_before_guesses.pop() {
            *self = previous_state;
            assert(views(states_before_guesses@) =~= views(old(states_before_guesses)@).drop_last());
            Some(())
        } else {
            None
        }
    }
}

/// Setting a board aside adds its bound to what is left of the search.
pub proof fn lemma_stack_bound_push(stack: Seq<BoardView>, b: BoardView)
    ensures
        stack_bound(stack.push(b)) == stack_bound(stack) + search_bound(b.total()),
{
    assert(stack.push(b).drop_last() =~= stack);
}

impl BoardView {
    /// The frontier after a guess.
    pub proof fn lemma_frontier_guess(
        self,
        current: BoardView,
        stack: Seq<BoardView>,
        i: int,
        d: int,
    )
        requires
            self.frontier(current, stack),
            0 <= i < current.cells.len(),
            current.cells[i].allows(d),
            !current.cells[i].solved,
        ensures
            self.frontier(current.guessing(i, d), stack.push(current.refusing(i, d))),
            search_bound(current.guessing(i, d).total()) + stack_bound(
                stack.push(current.refusing(i, d)),
            ) < search_bound(current.total()) + stack_bound(stack),
    {
        let yes = current.guessing(i, d);
        let no = current.refusing(i, d);
        let after = stack.push(no);
        current.lemma_guess(i, d);
        assert forall|x: int| 0 <= x < yes.cells.len() implies (#[trigger] yes.cells[x]).within(
            self.cells[x],
        ) by {
            assert(yes.cells[x].within(current.cells[x]));
            assert(current.cells[x].within(self.cells[x]));
        }
        assert forall|x: int| 0 <= x < no.cells.len() implies (#[trigger] no.cells[x]).within(
            self.cells[x],
        ) by {
            assert(no.cells[x].within(current.cells[x]));
            assert(current.cells[x].within(self.cells[x]));
        }
        assert forall|x: int| 0 <= x < self.cells.len() && (#[trigger] self.cells[x]).solved implies {
            &&& yes.cells[x] == self.cells[x]
            &&& no.cells[x] == self.cells[x]
        } by {
            assert(current.cells[x] == self.cells[x]);
        }
        assert(yes.keeps_solved(self));
        assert(no.keeps_solved(self));
        assert forall|k: int| 0 <= k < after.len() implies (#[trigger] after[k]).wf()
            && after[k].within(self) && after[k].keeps_solved(self) by {
            if k < stack.len() {
                assert(after[k] == stack[k]);
            }
        }
        assert forall|g: Seq<int>|
            #![trigger self.completed_by(g)]
            self.completed_by(g) implies yes.completed_by(g) || exists|k: int|
            0 <= k < after.len() && (#[trigger] after[k]).completed_by(g) by {
            if current.completed_by(g) {
                if !yes.completed_by(g) {
                    assert(after[stack.len() as int].completed_by(g));
                }
            } else {
                let k = choose|k: int| 0 <= k < stack.len() && (#[trigger] stack[k]).completed_by(g);
                assert(after[k] == stack[k]);
                assert(after[k].completed_by(g));
            }
        }
        lemma_stack_bound_push(stack, no);
        lemma_search_bound_grows(yes.total(), (current.total() - 1) as nat);
        lemma_search_bound_grows(no.total(), (current.total() - 1) as nat);
    }

    /// The frontier after the way back from a board without completion.
    pub proof fn lemma_frontier_backtrack(self, current: BoardView, stack: Seq<BoardView>)
        requires
            self.frontier(current, stack),
            !current.solvable(),
            stack.len() > 0,
        ensures
            self.frontier(stack.last(), stack.drop_last()),
            search_bound(stack.last().total()) + stack_bound(stack.drop_last()) < search_bound(
                current.total(),
            ) + stack_bound(stack),
    {
        let rest = stack.drop_last();
        assert(stack.last() == stack[stack.len() - 1]);
        assert forall|k: int| 0 <= k < rest.len() implies (#[trigger] rest[k]).wf()
            && rest[k].within(self) && rest[k].keeps_solved(self) by {
            assert(rest[k] == stack[k]);
        }
        assert forall|g: Seq<int>|
            #![trigger self.completed_by(g)]
            self.completed_by(g) implies stack.last().completed_by(g) || exists|k: int|
            0 <= k < rest.len() && (#[trigger] rest[k]).completed_by(g) by {
            assert(!current.completed_by(g));
            let k = choose|k: int| 0 <= k < stack.len() && (#[trigger] stack[k]).completed_by(g);
            if k < rest.len() {
                assert(rest[k] == stack[k]);
                assert(rest[k].completed_by(g));
            }
        }
        lemma_search_bound_grows(current.total(), current.total());
    }

    /// The frontier after propagation.
    pub proof fn lemma_frontier_propagated(
        self,
        current: BoardView,
        stack: Seq<BoardView>,
        new: BoardView,
    )
        requires
            self.frontier(current, stack),
            new.propagated_from(current),
        ensures
            self.frontier(new, stack),
            search_bound(new.total()) <= search_bound(current.total()),
    {
        assert forall|x: int| 0 <= x < new.cells.len() implies (#[trigger] new.cells[x]).within(
            self.cells[x],
        ) by {
            assert(new.cells[x].within(current.cells[x]));
            assert(current.cells[x].within(self.cells[x]));
        }
        assert forall|x: int| 0 <= x < self.cells.len() && (#[trigger] self.cells[x]).solved implies new.cells[x]
            == self.cells[x] by {
            assert(current.cells[x] == self.cells[x]);
        }
        new.lemma_total_within(current);
        lemma_search_bound_grows(new.total(), current.total());
    }

    /// A frontier without boards has no completion.
    pub proof fn lemma_frontier_empty(self, current: BoardView, stack: Seq<BoardView>)
        requires
            self.frontier(current, stack),
            !current.solvable(),
            stack.len() == 0,
        ensures
            !self.solvable(),
    {
        assert forall|g: Seq<int>| !self.completed_by(g) by {
            if self.completed_by(g) {
                assert(!current.completed_by(g));
            }
        }
    }
}

impl BoardView {
    /// A board has one cell for a guess at most.
    pub proof fn lemma_guess_cell_unique(self, i: int, j: int)
        requires
            self.guess_cell(i),
            self.guess_cell(j),
        ensures
            i == j,
    {
        if i < j {
            assert(!self.cells[i].solved);
            assert(!self.cells[j].solved);
        } else if j < i {
            assert(!self.cells[j].solved);
            assert(!self.cells[i].solved);
        }
    }

    /// A guess has been made in the cell numbered `i`: the board holds the
    /// lowest digit of that cell there, and the board on which the cell has
    /// lost that digit is set aside on top of the others.
    pub open spec fn guessed(
        self,
        stack: Seq<BoardView>,
        i: int,
        after: BoardView,
        rest: Seq<BoardView>,
    ) -> bool {
        let d = self.cells[i].digit();
        after == self.guessing(i, d) && rest == stack.push(self.refusing(i, d))
    }

    /// The way back has been taken: the board is the one that was set aside
    /// last, and is set aside no longer; or nothing has changed, and `r` is
    /// `None`, if no board was set aside.
    pub open spec fn backtracked(
        self,
        stack: Seq<BoardView>,
        after: BoardView,
        rest: Seq<BoardView>,
        r: Option<()>,
    ) -> bool {
        if stack.len() > 0 {
            r is Some && after == stack.last() && rest == stack.drop_last()
        } else {
            r is None && after == self && rest == stack
        }
    }
}

impl Board {
    /// Finds the cell for a guess and makes the guess, or goes back to the
    /// board set aside last if there is no digit to guess: if every cell
    /// is solved, or the cell found has no digit left.
    ///
    /// `None` says that nothing is done, since a way back was needed and no
    /// board is set aside.
    pub fn guess_or_backtrack(&mut self, states_before_guesses: &mut Vec<Board>) -> (r: Option<()>)
        requires
            old(self)@.wf(),
            !old(self)@.solved(),
        ensures
            forall|i: int|
                #[trigger] old(self)@.guess_cell(i) && old(self)@.cells[i].count() > 0 ==> r is Some
                    && old(self)@.guessed(
                    views(old(states_before_guesses)@),
                    i,
                    final(self)@,
                    views(final(states_before_guesses)@),
                ),
            (forall|i: int| #[trigger] old(self)@.guess_cell(i) ==> old(self)@.cells[i].count() == 0)
                ==> old(self)@.backtracked(
                views(old(states_before_guesses)@),
                final(self)@,
                views(final(states_before_guesses)@),
                r,
            ),
            r is None ==> !old(self)@.solvable() && old(states_before_guesses)@.len() == 0
                && final(self)@ == old(self)@ && final(states_before_guesses)@ == old(
                states_before_guesses,
            )@,
            r is Some ==> forall|start: BoardView|
                #![trigger start.frontier(old(self)@, views(old(states_before_guesses)@))]
                start.frontier(old(self)@, views(old(states_before_guesses)@)) ==> start.frontier(
                    final(self)@,
                    views(final(states_before_guesses)@),
                ) && search_bound(final(self)@.total()) + stack_bound(
                    views(final(states_before_guesses)@),
                ) < search_bound(old(self)@.total()) + stack_bound(
                    views(old(states_before_guesses)@),
                ),
    {
        let ghost before = self@;
        let ghost stack = views(states_before_guesses@);
        //Try to find the (unsolved) cell with the fewest possibilities
        let guess_location = self.fewest_possibilities();
        match guess_location {
            Location::Valid(r, c) => {
                proof {
                    lemma_flat_bounds(before.cells_per_set as int, r as int, c as int);
                }
                //Get the index of the first possible digit for the cell
                match self.get(guess_location).first_possibility() {
                    Some(index) => {
                        //Found a valid guess, so make it.
                        self.make_guess(states_before_guesses, guess_location, index);
                        proof {
                            let i = flat(before.cells_per_set as int, r as int, c as int);
                            lemma_count_positive(before.cells[i].possibilities, index as int);
                            assert(before.guess_cell(i) && before.cells[i].count() > 0);
                            assert forall|j: int|
                                #[trigger] before.guess_cell(j) && before.cells[j].count()
                                    > 0 implies before.guessed(
                                stack,
                                j,
                                self@,
                                views(states_before_guesses@),
                            ) by {
                                before.lemma_guess_cell_unique(i, j);
                            }
                            assert forall|start: BoardView|
                                #![trigger start.frontier(before, stack)]
                                start.frontier(before, stack) implies start.frontier(
                                self@,
                                views(states_before_guesses@),
                            ) && search_bound(self@.total()) + stack_bound(
                                views(states_before_guesses@),
                            ) < search_bound(before.total()) + stack_bound(stack) by {
                                start.lemma_frontier_guess(before, stack, i, index as int);
                            }
                        }
                        return Some(());
                    },
                    None => {
                        proof {
                            let i = flat(before.cells_per_set as int, r as int, c as int);
                            before.lemma_dead_cell(i);
                            assert forall|j: int| #[trigger] before.guess_cell(j) implies before.cells[j].count()
                                == 0 by {
                                before.lemma_guess_cell_unique(i, j);
                            }
                        }
                    },
                }
            },
            _ => {
                proof {
                    before.lemma_filled_unsolved();
                }
            },
        }
        //Couldn't find a guess, need to backtrack
        let r = self.backtrack(states_before_guesses);
        proof {
            if r is Some {
                assert forall|start: BoardView|
                    #![trigger start.frontier(before, stack)]
                    start.frontier(before, stack) implies start.frontier(
                    self@,
                    views(states_before_guesses@),
                ) && search_bound(self@.total()) + stack_bound(views(states_before_guesses@))
                    < search_bound(before.total()) + stack_bound(stack) by {
                    start.lemma_frontier_backtrack(before, stack);
                }
            }
        }
        r
    }
}

} // verus!
