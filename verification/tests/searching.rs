use sudoku::board::Board;
use sudoku::cell::Cell;
use sudoku::location::Location;
use sudoku::puzzles::PuzzleToSolve;
use sudoku::search::Outcome;

fn given(board: &Board) -> Vec<Option<usize>> {
    let n = board.cells_per_set();
    let mut out = Vec::new();
    for r in 0..n {
        for c in 0..n {
            out.push(board.get(Location::Valid(r, c)).get_single_index());
        }
    }
    out
}

fn assert_solved(board: &mut Board) {
    let n = board.cells_per_set();
    let rows_per_box = board.rows_per_box();
    let cols_per_box = board.cols_per_box();
    assert!(board.is_solved());
    assert!(!board.has_contradiction());
    let digits = given(board);
    for i in 0..n {
        let mut row = vec![0usize; n];
        let mut col = vec![0usize; n];
        let mut boxed = vec![0usize; n];
        for k in 0..n {
            row[digits[i * n + k].unwrap()] += 1;
            col[digits[k * n + i].unwrap()] += 1;
            let r = (i / rows_per_box) * rows_per_box + k / cols_per_box;
            let c = (i % rows_per_box) * cols_per_box + k % cols_per_box;
            boxed[digits[r * n + c].unwrap()] += 1;
        }
        assert_eq!(row, vec![1; n]);
        assert_eq!(col, vec![1; n]);
        assert_eq!(boxed, vec![1; n]);
    }
}

fn assert_keeps_the_givens(puzzle: &Board, solution: &Board) {
    let before = given(puzzle);
    let after = given(solution);
    for i in 0..before.len() {
        if let Some(d) = before[i] {
            assert_eq!(after[i], Some(d));
        }
    }
}

fn solves(puzzle: PuzzleToSolve) {
    let start = puzzle.board();
    let mut board = puzzle.board();
    assert_eq!(board.solve(), Outcome::Solved);
    assert_solved(&mut board);
    assert_keeps_the_givens(&start, &board);
    let mut fast = puzzle.board();
    assert_eq!(fast.fast_solve(), Outcome::Solved);
    assert_solved(&mut fast);
    assert_keeps_the_givens(&start, &fast);
}

#[test]
fn first_medium_puzzle_is_solved() {
    solves(PuzzleToSolve::Medium0);
}

#[test]
fn second_medium_puzzle_is_solved() {
    solves(PuzzleToSolve::Medium1);
}

#[test]
fn third_medium_puzzle_is_solved() {
    solves(PuzzleToSolve::Medium2);
}

#[test]
fn first_hard_puzzle_is_solved() {
    solves(PuzzleToSolve::Hard0);
}

#[test]
fn second_hard_puzzle_is_solved() {
    solves(PuzzleToSolve::Hard1);
}

#[test]
fn top_row_puzzle_is_solved() {
    solves(PuzzleToSolve::TopRow);
}

#[test]
fn blank_puzzle_is_solved() {
    solves(PuzzleToSolve::Blank);
}

#[test]
fn very_hard_puzzle_is_solved_by_the_fast_search() {
    let start = PuzzleToSolve::VeryHard.board();
    let mut board = PuzzleToSolve::VeryHard.board();
    assert_eq!(board.fast_solve(), Outcome::Solved);
    assert_solved(&mut board);
    assert_keeps_the_givens(&start, &board);
}

#[test]
fn puzzle_grids_and_boards_agree() {
    let puzzles = [
        PuzzleToSolve::VeryHard,
        PuzzleToSolve::Hard0,
        PuzzleToSolve::Hard1,
        PuzzleToSolve::Medium0,
        PuzzleToSolve::Medium1,
        PuzzleToSolve::Medium2,
        PuzzleToSolve::TopRow,
        PuzzleToSolve::Blank,
    ];
    let clues = [18, 17, 17, 26, 23, 22, 9, 0];
    for (puzzle, expected) in puzzles.iter().zip(clues) {
        let grid = puzzle.grid();
        let board = puzzle.board();
        let mut count = 0;
        for r in 0..9 {
            for c in 0..9 {
                let cell = board.get(Location::Valid(r, c));
                if grid[r][c] == '.' {
                    assert_eq!(*cell, Cell::new(9));
                } else {
                    assert_eq!(*cell, Cell::new_single_char(9, grid[r][c]).unwrap());
                    count += 1;
                }
            }
        }
        assert_eq!(count, expected);
    }
    assert_eq!(PuzzleToSolve::TopRow.grid()[0], ['1', '2', '3', '4', '5', '6', '7', '8', '9']);
    assert_eq!(PuzzleToSolve::Medium2.grid()[3], ['.', '.', '.', '.', '.', '.', '3', '1', '7']);
}

#[test]
fn solved_board_is_left_as_it_is() {
    let mut board = PuzzleToSolve::Medium2.board();
    assert_eq!(board.solve(), Outcome::Solved);
    let solution = given(&board);
    assert_eq!(board.solve(), Outcome::Solved);
    assert_eq!(given(&board), solution);
    assert_eq!(board.fast_solve(), Outcome::Solved);
    assert_eq!(given(&board), solution);
}

#[test]
fn puzzle_without_a_solution_is_found_out() {
    // The top right cell can hold no digit, but no region holds a digit twice.
    let mut board = Board::new(2, 2);
    board.set(Location::Valid(0, 0), Cell::new_single_digit(4, 0));
    board.set(Location::Valid(0, 1), Cell::new_single_digit(4, 1));
    board.set(Location::Valid(0, 2), Cell::new_single_digit(4, 2));
    board.set(Location::Valid(1, 3), Cell::new_single_digit(4, 3));
    assert!(!board.has_contradiction());
    let mut fast = board.clone();
    assert_eq!(board.solve(), Outcome::Unsolvable);
    assert_eq!(fast.fast_solve(), Outcome::Unsolvable);
}

#[test]
fn puzzle_that_needs_a_way_back_is_found_unsolvable() {
    // Both ways to fill the first two rows leave row 3 of a column without a digit.
    let mut board = Board::new(2, 2);
    board.set(Location::Valid(0, 0), Cell::new_single_digit(4, 0));
    board.set(Location::Valid(1, 1), Cell::new_single_digit(4, 1));
    board.set(Location::Valid(2, 2), Cell::new_single_digit(4, 0));
    board.set(Location::Valid(3, 3), Cell::new_single_digit(4, 0));
    let mut fast = board.clone();
    assert_eq!(board.solve(), Outcome::Unsolvable);
    assert_eq!(fast.fast_solve(), Outcome::Unsolvable);
}

#[test]
fn both_searches_agree_on_small_boards() {
    for first in 0..4 {
        for second in 0..4 {
            let mut board = Board::new(2, 2);
            board.set(Location::Valid(0, 0), Cell::new_single_digit(4, first));
            board.set(Location::Valid(1, 2), Cell::new_single_digit(4, second));
            let mut fast = board.clone();
            let outcome = board.solve();
            assert_eq!(fast.fast_solve(), outcome);
            assert_eq!(outcome, Outcome::Solved);
            assert_solved(&mut board);
            assert_solved(&mut fast);
            assert_eq!(given(&board)[0], Some(first));
            assert_eq!(given(&board)[6], Some(second));
        }
    }
}

#[test]
fn guess_goes_to_the_first_cell_with_the_fewest_digits() {
    let mut board = Board::new(2, 2);
    assert_eq!(board.fewest_possibilities(), Location::Valid(0, 0));
    board.get_mut(Location::Valid(2, 1)).possibilities[0] = false;
    assert_eq!(board.fewest_possibilities(), Location::Valid(2, 1));
    board.get_mut(Location::Valid(1, 3)).possibilities[2] = false;
    assert_eq!(board.fewest_possibilities(), Location::Valid(1, 3));
    board.get_mut(Location::Valid(3, 3)).possibilities[0] = false;
    board.get_mut(Location::Valid(3, 3)).possibilities[1] = false;
    assert_eq!(board.fewest_possibilities(), Location::Valid(3, 3));
    board.set(Location::Valid(3, 3), Cell::new_single_digit(4, 2));
    assert_eq!(board.fewest_possibilities(), Location::Valid(1, 3));
}

#[test]
fn no_guess_on_a_board_of_solved_cells() {
    let mut board = Board::new(1, 2);
    board.set(Location::Valid(0, 0), Cell::new_single_digit(2, 0));
    board.set(Location::Valid(0, 1), Cell::new_single_digit(2, 1));
    board.set(Location::Valid(1, 0), Cell::new_single_digit(2, 1));
    assert_eq!(board.fewest_possibilities(), Location::Valid(1, 1));
    board.set(Location::Valid(1, 1), Cell::new_single_digit(2, 0));
    assert_eq!(board.fewest_possibilities(), Location::Invalid);
}

#[test]
fn guess_sets_the_other_board_aside() {
    let mut board = Board::new(2, 2);
    let mut stack: Vec<Board> = Vec::new();
    board.make_guess(&mut stack, Location::Valid(1, 2), 3);
    assert_eq!(*board.get(Location::Valid(1, 2)), Cell::new_single_digit(4, 3));
    assert_eq!(stack.len(), 1);
    assert_eq!(stack[0].get(Location::Valid(1, 2)).possibilities, vec![true, true, true, false]);
    assert!(!stack[0].get(Location::Valid(1, 2)).solved);
    assert_eq!(*stack[0].get(Location::Valid(0, 0)), Cell::new(4));
    assert_eq!(*board.get(Location::Valid(0, 0)), Cell::new(4));
}

#[test]
fn guess_between_two_digits_leaves_a_solved_cell_behind() {
    let mut board = Board::new(1, 2);
    let mut stack: Vec<Board> = Vec::new();
    board.make_guess(&mut stack, Location::Valid(0, 1), 0);
    assert_eq!(*board.get(Location::Valid(0, 1)), Cell::new_single_digit(2, 0));
    assert_eq!(*stack[0].get(Location::Valid(0, 1)), Cell::new_single_digit(2, 1));
}

#[test]
fn way_back_takes_the_board_set_aside_last() {
    let mut board = Board::new(2, 2);
    let mut stack: Vec<Board> = Vec::new();
    assert_eq!(board.backtrack(&mut stack), None);
    board.make_guess(&mut stack, Location::Valid(0, 0), 0);
    board.make_guess(&mut stack, Location::Valid(0, 1), 1);
    assert_eq!(stack.len(), 2);
    assert_eq!(board.backtrack(&mut stack), Some(()));
    assert_eq!(stack.len(), 1);
    assert_eq!(*board.get(Location::Valid(0, 0)), Cell::new_single_digit(4, 0));
    assert_eq!(board.get(Location::Valid(0, 1)).possibilities, vec![true, false, true, true]);
    assert_eq!(board.backtrack(&mut stack), Some(()));
    assert_eq!(board.get(Location::Valid(0, 0)).possibilities, vec![false, true, true, true]);
    assert_eq!(*board.get(Location::Valid(0, 1)), Cell::new(4));
    assert_eq!(board.backtrack(&mut stack), None);
    assert_eq!(board.get(Location::Valid(0, 0)).possibilities, vec![false, true, true, true]);
}

#[test]
fn guess_or_way_back() {
    let mut board = Board::new(2, 2);
    let mut stack: Vec<Board> = Vec::new();
    assert_eq!(board.guess_or_backtrack(&mut stack), Some(()));
    assert_eq!(*board.get(Location::Valid(0, 0)), Cell::new_single_digit(4, 0));
    assert_eq!(stack.len(), 1);
    // A cell without a digit is no place for a guess.
    board.get_mut(Location::Valid(3, 3)).possibilities = vec![false; 4];
    assert_eq!(board.guess_or_backtrack(&mut stack), Some(()));
    assert_eq!(stack.len(), 0);
    assert_eq!(board.get(Location::Valid(0, 0)).possibilities, vec![false, true, true, true]);
    board.get_mut(Location::Valid(3, 3)).possibilities = vec![false; 4];
    assert_eq!(board.guess_or_backtrack(&mut stack), None);
    assert_eq!(stack.len(), 0);
}
