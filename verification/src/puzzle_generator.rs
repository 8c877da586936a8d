//! Making puzzles: a few digits are strewn over a blank board, the board is
//! solved, and cells of the solution are blanked again.

use vstd::prelude::*;
use rand::rngs::ThreadRng;
use rand::Rng;
use crate::board::Board;
use crate::cell::{Cell, CellView};
use crate::counting::{count_true, lemma_count_bounds, lemma_count_full, lemma_count_update};
use crate::geometry::{flat, lemma_flat_bounds, lemma_flat_onto};
use crate::location::Location;
use crate::model::BoardView;

verus! {

/// The random number generator of `rand` that the generator of puzzles
/// draws from. Nothing is known of what it holds.
#[verifier::external_type_specification]
#[verifier::external_body]
pub struct ExThreadRng(rand::rngs::ThreadRng);

/// `ThreadRng::default()` of `rand`: a handle to the random number generator
/// of the current thread. Nothing is claimed of it. The call does not return
/// if the operating system has no entropy to seed the generator with.
#[verifier::external_body]
fn thread_generator() -> ThreadRng {
    ThreadRng::default()
}

/// `Rng::gen_range` of `rand` on the range `0..bound`: a number below
/// `bound`, which is all that is claimed of it. The range must not be
/// empty. Two calls may return different numbers. The call does not return
/// if the generator is due for fresh entropy and the operating system has
/// none.
#[verifier::external_body]
fn draw_below(rng: &mut ThreadRng, bound: usize) -> (drawn: usize)
    requires
        bound > 0,
    ensures
        drawn < bound,
{
    rng.gen_range(0..bound)
}

/// How often `generate_puzzle` strews digits anew before it takes the
/// solution of the blank board.
pub const MAX_SEEDINGS: usize = 16;

impl BoardView {
    /// For every cell, whether it is solved.
    pub open spec fn solved_flags(self) -> Seq<bool> {
        Seq::new(self.cells.len(), |i: int| self.cells[i].solved)
    }

    /// The number of solved cells.
    pub open spec fn givens(self) -> nat {
        count_true(self.solved_flags())
    }

    /// The board holds digit `d` in the cell numbered `placed[d]`, for every
    /// `d` that `placed` has, and is blank everywhere else.
    pub open spec fn seeded_with(self, placed: Seq<int>) -> bool {
        &&& forall|d: int|
            0 <= d < placed.len() ==> 0 <= #[trigger] placed[d] < self.cells.len()
                && self.cells[placed[d]] == CellView::single(self.cells_per_set, d)
        &&& forall|d1: int, d2: int|
            0 <= d1 < d2 < placed.len() ==> #[trigger] placed[d1] != #[trigger] placed[d2]
        &&& forall|i: int|
            0 <= i < self.cells.len() && !placed.contains(i) ==> #[trigger] self.cells[i]
                == CellView::blank(self.cells_per_set)
    }

    /// Every cell is as `solution` has it, or blank.
    pub open spec fn cut_from(self, solution: BoardView) -> bool {
        &&& self.same_shape(solution)
        &&& forall|i: int|
            0 <= i < self.cells.len() ==> #[trigger] self.cells[i] == solution.cells[i]
                || self.cells[i] == CellView::blank(self.cells_per_set)
    }

    /// A board cut from a solved board is completed by it.
    pub proof fn lemma_cut_solvable(self, solution: BoardView)
        requires
            solution.wf(),
            solution.solved(),
            self.cut_from(solution),
        ensures
            self.wf(),
            self.completed_by(solution.grid()),
            self.solvable(),
    {
        let n = self.cells_per_set;
        let g = solution.grid();
        solution.lemma_solved_completes();
        CellView::lemma_blank(n);
        assert forall|i: int| 0 <= i < self.cells.len() implies (#[trigger] self.cells[i]).wf(n)
            && self.cells[i].allows(g[i]) by {
            assert(solution.cells[i].wf(n));
            assert(solution.cells[i].allows(g[i]));
        }
        self.lemma_valid_grid_shape(solution, g);
    }

    /// Replacing a cell changes the number of solved cells by that cell
    /// alone.
    pub proof fn lemma_givens_with_tile(self, i: int, cell: CellView)
        requires
            0 <= i < self.cells.len(),
        ensures
            self.with_tile(i, cell).givens() + (if self.cells[i].solved {
                1nat
            } else {
                0nat
            }) == self.givens() + (if cell.solved {
                1nat
            } else {
                0nat
            }),
    {
        assert(self.with_tile(i, cell).solved_flags() =~= self.solved_flags().update(
            i,
            cell.solved,
        ));
        lemma_count_update(self.solved_flags(), i, cell.solved);
    }
}

/// The numbers of the cells of a grid of `total` cells, in order.
pub fn open_cells(total: usize) -> (open: Vec<usize>)
    ensures
        open@.len() == total,
        forall|k: int| 0 <= k < total ==> #[trigger] open@[k] == k,
{
    let mut open: Vec<usize> = Vec::with_capacity(total);
    let mut i: usize = 0;
    while i < total
        invariant
            i <= total,
            open@.len() == i,
            forall|k: int| 0 <= k < i ==> #[trigger] open@[k] == k,
        decreases total - i,
    {
        open.push(i);
        i += 1;
    }
    open
}

/// Gives `digit` to the cell whose number `open` holds at place `drawn`, and
/// takes that number out of `open`: the last number of `open` moves to its
/// place.
pub fn place_seed(board: &mut Board, open: &mut Vec<usize>, digit: usize, drawn: usize)
    requires
        old(board)@.wf(),
        digit < old(board)@.cells_per_set,
        drawn < old(open)@.len(),
        old(open)@[drawn as int] < old(board)@.cells.len(),
    ensures
        final(board)@ == old(board)@.with_tile(
            old(open)@[drawn as int] as int,
            CellView::single(old(board)@.cells_per_set, digit as int),
        ),
        final(open)@ == old(open)@.update(drawn as int, old(open)@.last()).drop_last(),
{
    let n = board.cells_per_set();
    let i = open.swap_remove(drawn);
    proof {
        lemma_flat_onto(n as int, i as int);
    }
    board.set(Location::Valid(i / n, i % n), Cell::new_single_digit(n, digit));
}

/// Creates puzzles that are guaranteed to have at least one solution.
pub struct PuzzleGenerator {
    rng: ThreadRng,
}

impl PuzzleGenerator {
    /// A generator that draws from the random number generator of the
    /// current thread.
    pub fn new() -> Self {
        Self { rng: thread_generator() }
    }

    /// A board on which each digit but the last stands once, in cells drawn
    /// at random, and which is blank everywhere else.
    pub fn seeded_board(&mut self, rows_per_box: usize, cols_per_box: usize) -> (board: Board)
        requires
            rows_per_box > 0,
            cols_per_box > 0,
            (rows_per_box * cols_per_box) * (rows_per_box * cols_per_box) <= usize::MAX,
        ensures
            board@.wf(),
            board@.same_shape(BoardView::blank(rows_per_box as nat, cols_per_box as nat)),
            exists|placed: Seq<int>|
                placed.len() == rows_per_box * cols_per_box - 1 && #[trigger] board@.seeded_with(
                    placed,
                ),
    {
        let mut board = Board::new(rows_per_box, cols_per_box);
        let n = board.cells_per_set();
        assert(0 < n <= n * n) by (nonlinear_arith)
            requires
                n == rows_per_box * cols_per_box,
                rows_per_box > 0,
                cols_per_box > 0,
        ;
        let total = n * n;
        let mut open = open_cells(total);
        let ghost mut placed: Seq<int> = Seq::empty();
        let mut digit: usize = 0;
        while digit < n - 1
            invariant
                board@.wf(),
                board@.same_shape(BoardView::blank(rows_per_box as nat, cols_per_box as nat)),
                n == board@.cells_per_set,
                total == board@.cells.len(),
                0 < n <= total,
                digit <= n - 1,
                placed.len() == digit,
                board@.seeded_with(placed),
                open@.len() == total - digit,
                forall|k: int|
                    0 <= k < open@.len() ==> #[trigger] open@[k] < total && !placed.contains(
                        open@[k] as int,
                    ),
                forall|k1: int, k2: int|
                    0 <= k1 < k2 < open@.len() ==> #[trigger] open@[k1] != #[trigger] open@[k2],
            decreases n - digit,
        {
            let drawn = draw_below(&mut self.rng, open.len());
            let ghost before = board@;
            let ghost was_open = open@;
            let ghost was_placed = placed;
            let ghost i = open@[drawn as int] as int;
            place_seed(&mut board, &mut open, digit, drawn);
            proof {
                placed = was_placed.push(i);
                let single = CellView::single(n as nat, digit as int);
                CellView::lemma_single(n as nat, digit as int);
                assert forall|x: int| 0 <= x < board@.cells.len() implies (
                #[trigger] board@.cells[x]).wf(n as nat) by {
                    if x != i {
                        assert(board@.cells[x] == before.cells[x]);
                        assert(before.cells[x].wf(n as nat));
                    }
                }
                assert forall|k: int| 0 <= k < open@.len() implies #[trigger] open@[k] < total
                    && !placed.contains(open@[k] as int) && open@[k] != i by {
                    if k == drawn {
                        assert(open@[k] == was_open[was_open.len() - 1]);
                        assert(was_open[drawn as int] != was_open[was_open.len() - 1]);
                    } else {
                        assert(open@[k] == was_open[k]);
                        if k < drawn {
                            assert(was_open[k] != was_open[drawn as int]);
                        } else {
                            assert(was_open[drawn as int] != was_open[k]);
                        }
                    }
                    let j = open@[k] as int;
                    assert(!was_placed.contains(j));
                    if placed.contains(j) {
                        let d = choose|d: int| 0 <= d < placed.len() && placed[d] == j;
                        if d < was_placed.len() {
                            assert(was_placed[d] == j);
                        }
                    }
                }
                assert forall|k1: int, k2: int| 0 <= k1 < k2 < open@.len() implies #[trigger] open@[k1]
                    != #[trigger] open@[k2] by {
                    let j1 = if k1 == drawn {
                        was_open.len() - 1
                    } else {
                        k1
                    };
                    let j2 = if k2 == drawn {
                        was_open.len() - 1
                    } else {
                        k2
                    };
                    assert(open@[k1] == was_open[j1] && open@[k2] == was_open[j2]);
                    if j1 < j2 {
                        assert(was_open[j1] != was_open[j2]);
                    } else {
                        assert(was_open[j2] != was_open[j1]);
                    }
                }
                assert(!was_placed.contains(i));
                assert forall|d: int| 0 <= d < placed.len() implies 0 <= #[trigger] placed[d]
                    < board@.cells.len() && board@.cells[placed[d]] == CellView::single(
                    n as nat,
                    d,
                ) by {
                    if d < was_placed.len() {
                        assert(placed[d] == was_placed[d]);
                        assert(was_placed.contains(was_placed[d]));
                    }
                }
                assert forall|d1: int, d2: int| 0 <= d1 < d2 < placed.len() implies #[trigger] placed[d1]
                    != #[trigger] placed[d2] by {
                    if d2 == was_placed.len() {
                        assert(was_placed.contains(was_placed[d1]));
                    } else {
                        assert(was_placed[d1] != was_placed[d2]);
                    }
                }
                assert forall|x: int|
                    0 <= x < board@.cells.len() && !placed.contains(x) implies #[trigger] board@.cells[x]
                    == CellView::blank(n as nat) by {
                    assert(placed[was_placed.len() as int] == i);
                    assert(x != i);
                    if was_placed.contains(x) {
                        let d = choose|d: int| 0 <= d < was_placed.len() && was_placed[d] == x;
                        assert(placed[d] == x);
                    }
                    assert(before.cells[x] == CellView::blank(n as nat));
                }
            }
            digit += 1;
        }
        board
    }

    /// Generates a puzzle with at least one solution by adding random digits
    /// to a blank board, solving it, then removing random digits.
    ///
    /// A seeding that has no solution is thrown away and another is drawn,
    /// `MAX_SEEDINGS` times at most; after that the blank board is solved
    /// in its place. Of the solution `2 * n` cells or more are left, where
    /// `n` is the number of digits, and on a grid of more than two digits at
    /// least one cell is blanked.
    pub fn generate_puzzle(&mut self, rows_per_box: usize, cols_per_box: usize) -> (puzzle: Board)
        requires
            rows_per_box > 0,
            cols_per_box > 0,
            (rows_per_box * cols_per_box) * (rows_per_box * cols_per_box) <= usize::MAX,
        ensures
            puzzle@.wf(),
            puzzle@.same_shape(BoardView::blank(rows_per_box as nat, cols_per_box as nat)),
            puzzle@.solvable(),
            exists|solution: BoardView|
                solution.wf() && solution.solved() && #[trigger] puzzle@.cut_from(solution),
            puzzle@.givens() >= 2 * puzzle@.cells_per_set || puzzle@.givens()
                == puzzle@.cells.len(),
            puzzle@.cells_per_set > 2 ==> puzzle@.givens() < puzzle@.cells.len(),
    {
        let ghost blank = BoardView::blank(rows_per_box as nat, cols_per_box as nat);
        let mut board = Board::new(rows_per_box, cols_per_box);
        let cells_per_set = board.cells_per_set();
        assert(0 < cells_per_set) by (nonlinear_arith)
            requires
                cells_per_set == rows_per_box * cols_per_box,
                rows_per_box > 0,
                cols_per_box > 0,
        ;
        let total_size = cells_per_set * cells_per_set;
        let mut solved = false;
        let mut seedings: usize = 0;
        while !solved && seedings < MAX_SEEDINGS
            invariant
                board@.wf(),
                board@.same_shape(blank),
                solved ==> board@.solved(),
                seedings <= MAX_SEEDINGS,
                rows_per_box > 0,
                cols_per_box > 0,
                (rows_per_box * cols_per_box) * (rows_per_box * cols_per_box) <= usize::MAX,
                blank == BoardView::blank(rows_per_box as nat, cols_per_box as nat),
            decreases MAX_SEEDINGS - seedings,
        {
            board = self.seeded_board(rows_per_box, cols_per_box);
            if !board.has_contradiction() {
                let ghost seeded = board@;
                board.fast_solve();
                assert(board@.within(seeded));
                solved = board.is_solved();
            }
            seedings += 1;
        }
        if !solved {
            board = Board::new(rows_per_box, cols_per_box);
            proof {
                BoardView::lemma_blank_solvable(rows_per_box as nat, cols_per_box as nat);
            }
            board.fast_solve();
        }
        let ghost solution = board@;
        proof {
            board@.lemma_side();
            assert(board@.cut_from(solution));
            assert forall|i: int| 0 <= i < solution.cells.len() implies #[trigger] solution.solved_flags()[i] by {
                solution.lemma_solved_cells(i);
            }
            lemma_count_full(solution.solved_flags());
        }
        let mut num_given_digits = total_size;
        let ghost mut hidden: int = 0;
        while num_given_digits > 2 * cells_per_set
            invariant
                board@.wf(),
                board@.cut_from(solution),
                solution.wf(),
                solution.solved(),
                solution.same_shape(blank),
                cells_per_set == solution.cells_per_set,
                total_size == solution.cells.len(),
                2 * cells_per_set <= usize::MAX,
                cells_per_set > 0,
                num_given_digits <= total_size,
                board@.givens() >= num_given_digits,
                num_given_digits >= 2 * cells_per_set || num_given_digits == total_size,
                num_given_digits < total_size ==> 0 <= hidden < total_size && board@.cells[hidden]
                    == CellView::blank(cells_per_set as nat),
            decreases num_given_digits,
        {
            let r = draw_below(&mut self.rng, cells_per_set);
            let c = draw_below(&mut self.rng, cells_per_set);
            let hidden_digit = Cell::new(cells_per_set);
            let ghost before = board@;
            board.set(Location::Valid(r, c), hidden_digit);
            proof {
                let i = flat(cells_per_set as int, r as int, c as int);
                lemma_flat_bounds(cells_per_set as int, r as int, c as int);
                CellView::lemma_blank(cells_per_set as nat);
                before.lemma_givens_with_tile(i, CellView::blank(cells_per_set as nat));
                assert forall|x: int| 0 <= x < board@.cells.len() implies (
                #[trigger] board@.cells[x]).wf(cells_per_set as nat) by {
                    if x != i {
                        assert(board@.cells[x] == before.cells[x]);
                        assert(before.cells[x].wf(cells_per_set as nat));
                    }
                }
                assert forall|x: int| 0 <= x < board@.cells.len() implies #[trigger] board@.cells[x]
                    == solution.cells[x] || board@.cells[x] == CellView::blank(
                    cells_per_set as nat,
                ) by {
                    if x != i {
                        assert(board@.cells[x] == before.cells[x]);
                    }
                }
                hidden = i;
            }
            num_given_digits -= 1;
        }
        proof {
            board@.lemma_cut_solvable(solution);
            lemma_count_bounds(board@.solved_flags());
            if cells_per_set > 2 {
                assert(2 * cells_per_set < total_size) by (nonlinear_arith)
                    requires
                        cells_per_set > 2,
                        total_size == cells_per_set * cells_per_set,
                ;
                assert(!board@.solved_flags()[hidden]);
                lemma_count_full(board@.solved_flags());
            }
        }
        board
    }
}

} // verus!
