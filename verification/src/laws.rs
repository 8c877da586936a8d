//! What holds of the solver as a whole.

use vstd::prelude::*;
use crate::digit_set::DigitSet;
use crate::model::BoardView;
use crate::search::Outcome;

verus! {

/// Solving a solved board reports `Solved` and leaves the board as it is.
pub proof fn law_solved_board_is_kept(board: BoardView, after: BoardView, outcome: Outcome)
    requires
        board.wf(),
        board.solved(),
        board.searched(after, outcome),
    ensures
        outcome is Solved,
        after == board,
{
    board.lemma_solved_completes();
}

/// A second run of the reduction loop makes no progress: it never reports
/// that a cell has become solved, and after a run that has not found the
/// board dead it changes nothing.
pub proof fn law_reduction_is_idempotent(
    board: BoardView,
    once: BoardView,
    first: Option<bool>,
    twice: BoardView,
    second: Option<bool>,
)
    requires
        board.wf(),
        board.reduced_to(once, first),
        once.reduced_to(twice, second),
    ensures
        second != Some(true),
        first is Some ==> second == Some(false) && twice == once,
        first is None ==> second is None,
{
    if first is None {
        once.lemma_dead_kept(twice);
        if second is Some {
            twice.lemma_stable_alive();
        }
    }
}

/// The same of the fused reduction loop.
pub proof fn law_fast_reduction_is_idempotent(
    board: BoardView,
    once: BoardView,
    first: Option<()>,
    twice: BoardView,
    second: Option<()>,
)
    requires
        board.wf(),
        board.fast_reduced_to(once, first),
        once.fast_reduced_to(twice, second),
    ensures
        first is Some ==> second is Some && twice == once,
        first is None ==> second is None,
{
    if first is None {
        once.lemma_dead_kept(twice);
        if second is Some {
            twice.lemma_stable_alive();
        }
    }
}

/// In every row, column and box of a solved board every digit is held by
/// one cell and no other.
pub proof fn law_solved_regions_hold_each_digit_once(board: BoardView, set: DigitSet, d: int)
    requires
        board.wf(),
        board.solved(),
        board.has_region(set),
        0 <= d < board.cells_per_set,
    ensures
        exists|k: int|
            0 <= k < board.cells_per_set && (#[trigger] board.at(set, k)).determined() && board.at(
                set,
                k,
            ).digit() == d && forall|j: int|
                0 <= j < board.cells_per_set && j != k ==> (#[trigger] board.at(set, j)).digit()
                    != d,
{
    board.lemma_solved_completes();
    let g = board.grid();
    board.lemma_grid_has_digit(g, set, d);
    let k = choose|k: int| 0 <= k < board.cells_per_set && g[#[trigger] board.number(set, k)] == d;
    board.lemma_at(set, k);
    assert(board.region_solved(set));
    assert(board.at(set, k).determined());
    assert forall|j: int| 0 <= j < board.cells_per_set && j != k implies (#[trigger] board.at(
        set,
        j,
    )).digit() != d by {
        if j < k {
            assert(board.at(set, j).digit() != board.at(set, k).digit());
        } else {
            assert(board.at(set, k).digit() != board.at(set, j).digit());
        }
    }
}

/// The board that a search ends on with `Solved` is solved.
pub proof fn law_solved_outcome_is_solved(board: BoardView, after: BoardView, outcome: Outcome)
    requires
        board.wf(),
        board.searched(after, outcome),
        outcome is Solved,
    ensures
        after.wf(),
        after.solved(),
        after.within(board),
{
}

/// A board with the same digit in two solved cells of a row contradicts
/// itself.
pub proof fn law_row_duplicate_contradicts(board: BoardView, r: int, c1: int, c2: int)
    requires
        board.wf(),
        0 <= r < board.cells_per_set,
        0 <= c1 < c2 < board.cells_per_set,
        board.cell(r, c1).determined(),
        board.cell(r, c2).determined(),
        board.cell(r, c1).digit() == board.cell(r, c2).digit(),
    ensures
        board.contradicts(),
{
    board.lemma_side();
    let set = DigitSet::Row(board.cells_per_set as usize, r as usize);
    assert(board.has_region(set));
    assert(board.at(set, c1) == board.cell(r, c1));
    assert(board.at(set, c2) == board.cell(r, c2));
    assert(board.region_contradicts(set));
}

/// A board that holds a digit twice in a row, a column or a box is found
/// unsolvable, and has no completion. The board that the search leaves has
/// the solved cells of the board it began on: it holds the digit twice
/// still, and is not solved.
pub proof fn law_contradiction_is_unsolvable(board: BoardView, after: BoardView, outcome: Outcome)
    requires
        board.wf(),
        board.contradicts(),
        board.searched(after, outcome),
    ensures
        outcome is Unsolvable,
        !board.solvable(),
        after.keeps_solved(board),
        after.contradicts(),
        !after.solved(),
{
    board.lemma_contradiction();
    let set = choose|set: DigitSet| #[trigger] board.has_region(set) && board.region_contradicts(set);
    let (k1, k2) = choose|k1: int, k2: int|
        0 <= k1 < k2 < board.cells_per_set && (#[trigger] board.at(set, k1)).determined() && (
        #[trigger] board.at(set, k2)).determined() && board.at(set, k1).digit() == board.at(
            set,
            k2,
        ).digit();
    board.lemma_at(set, k1);
    board.lemma_at(set, k2);
    assert(board.cells[board.number(set, k1)].solved);
    assert(board.cells[board.number(set, k2)].solved);
    assert(after.at(set, k1) == board.at(set, k1));
    assert(after.at(set, k2) == board.at(set, k2));
    assert(after.has_region(set));
    assert(after.region_contradicts(set));
    assert(!after.region_solved(set));
}

/// A board that holds a digit twice is never solved by searching again:
/// after every run of searches, each on the board that the search before it
/// has left, the board holds the digit twice still and is not solved, and
/// every verdict is `Unsolvable`.
pub proof fn law_contradiction_outlasts_searches(
    boards: Seq<BoardView>,
    verdicts: Seq<Outcome>,
    i: int,
)
    requires
        boards.len() == verdicts.len() + 1,
        boards[0].wf(),
        boards[0].contradicts(),
        forall|s: int|
            0 <= s < verdicts.len() ==> (#[trigger] boards[s]).searched(boards[s + 1], verdicts[s]),
        0 <= i < boards.len(),
    ensures
        boards[i].wf(),
        boards[i].contradicts(),
        !boards[i].solved(),
        i < verdicts.len() ==> verdicts[i] is Unsolvable,
    decreases i,
{
    if i > 0 {
        law_contradiction_outlasts_searches(boards, verdicts, i - 1);
        assert(boards[i - 1].searched(boards[i - 1 + 1], verdicts[i - 1]));
        law_contradiction_is_unsolvable(boards[i - 1], boards[i], verdicts[i - 1]);
    } else {
        let set = choose|set: DigitSet|
            #[trigger] boards[0].has_region(set) && boards[0].region_contradicts(set);
        assert(!boards[0].region_solved(set));
    }
    if i < verdicts.len() {
        assert(boards[i].searched(boards[i + 1], verdicts[i]));
    }
}

/// The reduction loop keeps a cell with one digit left as it is, and where
/// it does not find the board dead, no unsolved cell of a region of that
/// cell allows the digit any longer. Where the board that it ends on holds
/// no digit twice, no other cell of such a region allows the digit at all.
pub proof fn law_naked_single_is_placed(
    board: BoardView,
    after: BoardView,
    r: Option<bool>,
    x: int,
    set: DigitSet,
    k: int,
    j: int,
)
    requires
        board.wf(),
        0 <= x < board.cells.len(),
        board.cells[x].determined(),
        board.reduced_to(after, r),
        board.has_region(set),
        0 <= k < board.cells_per_set,
        0 <= j < board.cells_per_set,
        board.number(set, k) == x,
        j != k,
    ensures
        after.cells[x] == board.cells[x],
        after.cells[x].solved,
        r is Some && !after.at(set, j).solved ==> !after.at(set, j).allows(board.cells[x].digit()),
        r is Some && !after.contradicts() ==> !after.at(set, j).allows(board.cells[x].digit()),
{
    assert(board.cells[x].wf(board.cells_per_set));
    assert(board.cells[x].solved);
    if r is Some && !after.at(set, j).solved {
        let d = board.cells[x].digit();
        assert(after.has_region(set));
        assert(after.region_reduced(set));
        assert(after.number(set, k) == x);
        assert(after.at(set, k).determined());
        assert(after.used(set, d));
        after.lemma_at(set, j);
        assert(!after.at(set, j).determined());
    }
    if r is Some && !after.contradicts() {
        assert(board.at(set, k) == board.cells[x]);
        assert(after.strikes_solved(board));
        assert(!after.at(set, j).allows(board.at(set, k).digit()));
    }
}

/// The same of the fused reduction loop.
pub proof fn law_naked_single_is_placed_fast(
    board: BoardView,
    after: BoardView,
    r: Option<()>,
    x: int,
    set: DigitSet,
    k: int,
    j: int,
)
    requires
        board.wf(),
        0 <= x < board.cells.len(),
        board.cells[x].determined(),
        board.fast_reduced_to(after, r),
        board.has_region(set),
        0 <= k < board.cells_per_set,
        0 <= j < board.cells_per_set,
        board.number(set, k) == x,
        j != k,
    ensures
        after.cells[x] == board.cells[x],
        after.cells[x].solved,
        r is Some && !after.contradicts() ==> !after.at(set, j).allows(board.cells[x].digit()),
{
    assert(board.cells[x].wf(board.cells_per_set));
    assert(board.cells[x].solved);
    if r is Some && !after.contradicts() {
        assert(board.at(set, k) == board.cells[x]);
        assert(after.strikes_solved(board));
        assert(!after.at(set, j).allows(board.at(set, k).digit()));
    }
}

/// A board with a completion is solved by the search: the outcome is
/// `Solved`, and every region of the board it ends on is solved.
pub proof fn law_solvable_board_is_solved(
    puzzle: BoardView,
    after: BoardView,
    outcome: Outcome,
    set: DigitSet,
)
    requires
        puzzle.wf(),
        puzzle.solvable(),
        puzzle.searched(after, outcome),
        after.has_region(set),
    ensures
        outcome is Solved,
        after.region_solved(set),
{
}

/// A puzzle cut from a solved board, as the generator cuts its puzzles, is
/// solved by the search, and every region of the board it ends on is
/// solved.
pub proof fn law_cut_puzzle_is_solved(
    solution: BoardView,
    puzzle: BoardView,
    after: BoardView,
    outcome: Outcome,
    set: DigitSet,
)
    requires
        solution.wf(),
        solution.solved(),
        puzzle.cut_from(solution),
        puzzle.searched(after, outcome),
        after.has_region(set),
    ensures
        outcome is Solved,
        after.region_solved(set),
{
    puzzle.lemma_cut_solvable(solution);
}

/// The search solves a blank board, whatever the shape of its boxes.
pub proof fn law_blank_board_is_solved(
    rows_per_box: nat,
    cols_per_box: nat,
    after: BoardView,
    outcome: Outcome,
)
    requires
        (rows_per_box * cols_per_box) * (rows_per_box * cols_per_box) <= usize::MAX,
        BoardView::blank(rows_per_box, cols_per_box).searched(after, outcome),
    ensures
        outcome is Solved,
        after.solved(),
{
    BoardView::lemma_blank_solvable(rows_per_box, cols_per_box);
}

/// A board on which a cell allows no digit, or a digit has no home in some
/// row, column or box, has no completion.
pub proof fn law_dead_board_is_unsolvable(board: BoardView)
    requires
        board.wf(),
        board.dead(),
    ensures
        !board.solvable(),
{
    if exists|i: int| 0 <= i < board.cells.len() && (#[trigger] board.cells[i]).count() == 0 {
        let i = choose|i: int| 0 <= i < board.cells.len() && (#[trigger] board.cells[i]).count() == 0;
        board.lemma_dead_cell(i);
    } else {
        let (set, d) = choose|set: DigitSet, d: int|
            board.has_region(set) && 0 <= d < board.cells_per_set && #[trigger] board.homeless(
                set,
                d,
            );
        board.lemma_dead_digit(set, d);
    }
}

/// The two reduction loops agree on a board that has a completion: neither
/// finds it dead, and both end on the same stable board.
pub proof fn law_reduction_loops_agree(
    board: BoardView,
    plain: BoardView,
    progress: Option<bool>,
    fused: BoardView,
    alive: Option<()>,
)
    requires
        board.wf(),
        board.solvable(),
        board.reduced_to(plain, progress),
        board.fast_reduced_to(fused, alive),
    ensures
        progress is Some,
        alive is Some,
        plain.stable(),
        fused == plain,
{
    let g = choose|g: Seq<int>| board.completed_by(g);
    assert(plain.completed_by(g));
    if progress is None {
        law_dead_board_is_unsolvable(plain);
    }
    if plain.contradicts() {
        plain.lemma_contradiction();
    }
    board.lemma_settled_end_is_unique(plain, fused);
    plain.lemma_stable_alive();
}

/// Two searches on one board come to the same verdict, whichever reduction
/// loop they use.
pub proof fn law_searches_agree(
    board: BoardView,
    first: BoardView,
    verdict: Outcome,
    second: BoardView,
    other: Outcome,
)
    requires
        board.wf(),
        board.searched(first, verdict),
        board.searched(second, other),
    ensures
        verdict == other,
{
}

/// Where the reduction loop ends on a board that holds no digit twice, that
/// board is the greatest settled board within the board it began on: it is
/// settled, and it allows what every such board allows.
pub proof fn law_reduction_finds_the_greatest_settled_board(
    board: BoardView,
    after: BoardView,
    r: Option<bool>,
    other: BoardView,
)
    requires
        board.wf(),
        board.reduced_to(after, r),
        r is Some,
        !after.contradicts(),
        other.settled(),
        other.within(board),
    ensures
        after.settled(),
        after.within(board),
        other.within(after),
{
}

/// The two reduction loops end alike: if one of them ends on a board that
/// is not dead and holds no digit twice, the other ends on the same board.
pub proof fn law_reduction_loops_end_alike(
    board: BoardView,
    plain: BoardView,
    progress: Option<bool>,
    fused: BoardView,
    alive: Option<()>,
)
    requires
        board.wf(),
        board.reduced_to(plain, progress),
        board.fast_reduced_to(fused, alive),
    ensures
        (progress is Some && !plain.contradicts()) <==> (alive is Some && !fused.contradicts()),
        progress is Some && !plain.contradicts() ==> fused == plain,
{
    if progress is Some && !plain.contradicts() {
        board.lemma_settled_end_is_unique(plain, fused);
        fused.lemma_stable_alive();
    }
    if alive is Some && !fused.contradicts() {
        board.lemma_settled_end_is_unique(fused, plain);
        plain.lemma_stable_alive();
    }
}

} // verus!
