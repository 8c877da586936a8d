use std::cell::Cell as Counter;
use std::cell::RefCell;

use sudoku::board::{Board, MalformedInput};
use sudoku::boolean_operation::BooleanOperation;
use sudoku::cell::Cell;
use sudoku::digit_iterator::DigitIterator;
use sudoku::digit_set::DigitSet;
use sudoku::index_iterator::IndexIterator;
use sudoku::location::Location;

fn symbols(rows: [&str; 9]) -> [[char; 9]; 9] {
    let mut out = [['.'; 9]; 9];
    for (r, row) in rows.iter().enumerate() {
        for (c, ch) in row.chars().enumerate() {
            out[r][c] = ch;
        }
    }
    out
}

fn coordinates(set: DigitSet, rows_per_box: usize, cols_per_box: usize) -> Vec<(usize, usize)> {
    let mut it = IndexIterator::new(set, rows_per_box, cols_per_box);
    let mut out = Vec::new();
    while let Some(Location::Valid(r, c)) = it.next() {
        out.push((r, c));
    }
    assert_eq!(it.next(), None);
    out
}

#[test]
fn new_board_is_blank() {
    let board = Board::new(2, 3);
    assert_eq!(board.rows_per_box(), 2);
    assert_eq!(board.cols_per_box(), 3);
    assert_eq!(board.cells_per_set(), 6);
    for r in 0..6 {
        for c in 0..6 {
            assert_eq!(*board.get(Location::Valid(r, c)), Cell::new(6));
        }
    }
}

#[test]
fn default_board_has_no_cells() {
    let mut board = Board::default();
    assert_eq!(board.cells_per_set(), 0);
    assert!(board.is_solved());
    assert!(!board.has_contradiction());
}

#[test]
fn board_from_symbols() {
    let board = Board::from_chars(&symbols([
        "1.......9",
        ".........",
        ".........",
        ".........",
        "....5....",
        ".........",
        ".........",
        ".........",
        "3.......7",
    ])).unwrap();
    assert_eq!(board.rows_per_box(), 3);
    assert_eq!(board.cols_per_box(), 3);
    assert_eq!(board.cells_per_set(), 9);
    assert_eq!(*board.get(Location::Valid(0, 0)), Cell::new_single_digit(9, 0));
    assert_eq!(*board.get(Location::Valid(0, 8)), Cell::new_single_digit(9, 8));
    assert_eq!(*board.get(Location::Valid(4, 4)), Cell::new_single_digit(9, 4));
    assert_eq!(*board.get(Location::Valid(8, 0)), Cell::new_single_digit(9, 2));
    assert_eq!(*board.get(Location::Valid(8, 8)), Cell::new_single_digit(9, 6));
    assert_eq!(*board.get(Location::Valid(0, 1)), Cell::new(9));
    assert_eq!(*board.get(Location::Valid(7, 3)), Cell::new(9));
}

#[test]
fn malformed_symbol_is_reported_with_its_place() {
    let mut rows = ["........."; 9];
    rows[2] = "...x.....";
    rows[5] = "0........";
    let error = Board::from_chars(&symbols(rows)).unwrap_err();
    assert_eq!(error, MalformedInput { row: 2, col: 3, symbol: 'x' });
}

#[test]
fn zero_is_no_digit() {
    let mut rows = ["123456789"; 9];
    rows[8] = "123456780";
    let error = Board::from_chars(&symbols(rows)).unwrap_err();
    assert_eq!(error, MalformedInput { row: 8, col: 8, symbol: '0' });
}

#[test]
fn set_replaces_one_cell() {
    let mut board = Board::new(2, 2);
    board.set(Location::Valid(1, 2), Cell::new_single_digit(4, 3));
    for r in 0..4 {
        for c in 0..4 {
            let expected = if (r, c) == (1, 2) {
                Cell::new_single_digit(4, 3)
            } else {
                Cell::new(4)
            };
            assert_eq!(*board.get(Location::Valid(r, c)), expected);
        }
    }
}

#[test]
fn get_mut_changes_the_cell_in_place() {
    let mut board = Board::new(2, 2);
    {
        let cell = board.get_mut(Location::Valid(3, 0));
        cell.possibilities[1] = false;
    }
    assert_eq!(board.get(Location::Valid(3, 0)).possibilities, vec![true, false, true, true]);
    assert_eq!(*board.get(Location::Valid(0, 3)), Cell::new(4));
}

#[test]
fn snapshot_is_independent() {
    let mut board = Board::new(2, 2);
    board.set(Location::Valid(0, 0), Cell::new_single_digit(4, 1));
    let snapshot = board.clone();
    board.set(Location::Valid(0, 0), Cell::new_single_digit(4, 2));
    board.get_mut(Location::Valid(2, 2)).possibilities[0] = false;
    assert_eq!(*snapshot.get(Location::Valid(0, 0)), Cell::new_single_digit(4, 1));
    assert_eq!(*snapshot.get(Location::Valid(2, 2)), Cell::new(4));
}

#[test]
fn rows_run_left_to_right() {
    assert_eq!(
        coordinates(DigitSet::Row(6, 4), 2, 3),
        vec![(4, 0), (4, 1), (4, 2), (4, 3), (4, 4), (4, 5)]
    );
}

#[test]
fn columns_run_top_to_bottom() {
    assert_eq!(
        coordinates(DigitSet::Col(6, 1), 2, 3),
        vec![(0, 1), (1, 1), (2, 1), (3, 1), (4, 1), (5, 1)]
    );
}

#[test]
fn boxes_are_numbered_and_walked_row_by_row() {
    assert_eq!(
        coordinates(DigitSet::Box(6, 0), 2, 3),
        vec![(0, 0), (0, 1), (0, 2), (1, 0), (1, 1), (1, 2)]
    );
    assert_eq!(
        coordinates(DigitSet::Box(6, 1), 2, 3),
        vec![(0, 3), (0, 4), (0, 5), (1, 3), (1, 4), (1, 5)]
    );
    assert_eq!(
        coordinates(DigitSet::Box(6, 2), 2, 3),
        vec![(2, 0), (2, 1), (2, 2), (3, 0), (3, 1), (3, 2)]
    );
    assert_eq!(
        coordinates(DigitSet::Box(6, 5), 2, 3),
        vec![(4, 3), (4, 4), (4, 5), (5, 3), (5, 4), (5, 5)]
    );
    assert_eq!(
        coordinates(DigitSet::Box(9, 4), 3, 3),
        vec![(3, 3), (3, 4), (3, 5), (4, 3), (4, 4), (4, 5), (5, 3), (5, 4), (5, 5)]
    );
}

#[test]
fn boxes_tile_the_grid() {
    for (rows_per_box, cols_per_box) in [(2usize, 3usize), (3, 2), (3, 3), (1, 4), (4, 1)] {
        let n = rows_per_box * cols_per_box;
        let mut seen = vec![false; n * n];
        for b in 0..n {
            for (r, c) in coordinates(DigitSet::Box(n, b), rows_per_box, cols_per_box) {
                assert!(r < n && c < n);
                assert!(!seen[r * n + c]);
                seen[r * n + c] = true;
            }
        }
        assert!(seen.iter().all(|s| *s));
    }
}

#[test]
fn whole_grid_runs_row_by_row() {
    assert_eq!(
        coordinates(DigitSet::All(2), 1, 2),
        vec![(0, 0), (0, 1), (1, 0), (1, 1)]
    );
    assert_eq!(coordinates(DigitSet::All(9), 3, 3).len(), 81);
}

#[test]
fn board_iterators_walk_the_set() {
    let mut board = Board::new(2, 2);
    board.set(Location::Valid(2, 3), Cell::new_single_digit(4, 0));
    let mut indices = board.iter_indices(DigitSet::Box(4, 3));
    assert_eq!(indices.next(), Some(Location::Valid(2, 2)));
    assert_eq!(indices.next(), Some(Location::Valid(2, 3)));
    assert_eq!(indices.next(), Some(Location::Valid(3, 2)));
    assert_eq!(indices.next(), Some(Location::Valid(3, 3)));
    assert_eq!(indices.next(), None);
    let mut digits = board.iter_digits(DigitSet::Box(4, 3));
    assert_eq!(digits.next(), Some(&Cell::new(4)));
    assert_eq!(digits.next(), Some(&Cell::new_single_digit(4, 0)));
    assert_eq!(digits.next(), Some(&Cell::new(4)));
    assert_eq!(digits.next(), Some(&Cell::new(4)));
    assert_eq!(digits.next(), None);
    let mut column = DigitIterator::new(&board, DigitSet::Col(4, 3), 4);
    let mut solved = Vec::new();
    while let Some(cell) = column.next() {
        solved.push(cell.solved);
    }
    assert_eq!(solved, vec![false, false, true, false]);
}

#[test]
fn eager_pass_visits_rows_then_columns_then_boxes() {
    let mut board = Board::new(1, 2);
    let seen = RefCell::new(Vec::new());
    let result = board.for_sets(
        |_b: &mut Board, set: DigitSet| {
            seen.borrow_mut().push(set);
            Some(false)
        },
        BooleanOperation::Or,
    );
    assert_eq!(result, Some(false));
    assert_eq!(
        *seen.borrow(),
        vec![
            DigitSet::Row(2, 0),
            DigitSet::Row(2, 1),
            DigitSet::Col(2, 0),
            DigitSet::Col(2, 1),
            DigitSet::Box(2, 0),
            DigitSet::Box(2, 1),
        ]
    );
}

#[test]
fn eager_pass_folds_every_result() {
    let mut board = Board::new(3, 3);
    let calls = Counter::new(0usize);
    let result = board.for_sets(
        |_b: &mut Board, set: DigitSet| {
            calls.set(calls.get() + 1);
            Some(set == DigitSet::Col(9, 4))
        },
        BooleanOperation::Or,
    );
    assert_eq!(result, Some(true));
    assert_eq!(calls.get(), 27);
    calls.set(0);
    let result = board.for_sets(
        |_b: &mut Board, set: DigitSet| {
            calls.set(calls.get() + 1);
            Some(set != DigitSet::Col(9, 4))
        },
        BooleanOperation::And,
    );
    assert_eq!(result, Some(false));
    assert_eq!(calls.get(), 27);
}

#[test]
fn lazy_pass_stops_when_the_fold_is_decided() {
    let mut board = Board::new(3, 3);
    let calls = Counter::new(0usize);
    let result = board.for_sets(
        |_b: &mut Board, set: DigitSet| {
            calls.set(calls.get() + 1);
            Some(set == DigitSet::Row(9, 2))
        },
        BooleanOperation::OrLazy,
    );
    assert_eq!(result, Some(true));
    assert_eq!(calls.get(), 3);
    calls.set(0);
    let result = board.for_sets(
        |_b: &mut Board, set: DigitSet| {
            calls.set(calls.get() + 1);
            Some(set != DigitSet::Col(9, 0))
        },
        BooleanOperation::AndLazy,
    );
    assert_eq!(result, Some(false));
    assert_eq!(calls.get(), 10);
    calls.set(0);
    let result = board.for_sets(
        |_b: &mut Board, _set: DigitSet| {
            calls.set(calls.get() + 1);
            Some(true)
        },
        BooleanOperation::AndLazy,
    );
    assert_eq!(result, Some(true));
    assert_eq!(calls.get(), 27);
}

#[test]
fn pass_ends_at_the_first_unsolvable_region() {
    let mut board = Board::new(3, 3);
    let calls = Counter::new(0usize);
    let result = board.for_sets(
        |_b: &mut Board, set: DigitSet| {
            calls.set(calls.get() + 1);
            if set == DigitSet::Box(9, 1) {
                None
            } else {
                Some(true)
            }
        },
        BooleanOperation::Or,
    );
    assert_eq!(result, None);
    assert_eq!(calls.get(), 20);
}

#[test]
fn pass_over_a_board_without_cells_is_the_neutral_element() {
    let mut board = Board::default();
    assert_eq!(board.for_sets(|_b: &mut Board, _s: DigitSet| Some(true), BooleanOperation::Or), Some(false));
    assert_eq!(board.for_sets(|_b: &mut Board, _s: DigitSet| Some(false), BooleanOperation::And), Some(true));
}

fn rows_of(rows: &[&str]) -> Vec<Vec<char>> {
    rows.iter().map(|row| row.chars().collect()).collect()
}

#[test]
fn board_from_a_grid_of_four_digits() {
    let board = Board::from_symbols(2, 2, &rows_of(&["1..4", "....", ".3..", "...2"])).unwrap();
    assert_eq!(board.rows_per_box(), 2);
    assert_eq!(board.cols_per_box(), 2);
    assert_eq!(board.cells_per_set(), 4);
    let given = [(0, 0, 0), (0, 3, 3), (2, 1, 2), (3, 3, 1)];
    for r in 0..4 {
        for c in 0..4 {
            let expected = match given.iter().find(|g| (g.0, g.1) == (r, c)) {
                Some(g) => Cell::new_single_digit(4, g.2),
                None => Cell::new(4),
            };
            assert_eq!(*board.get(Location::Valid(r, c)), expected);
        }
    }
}

#[test]
fn board_from_a_grid_with_boxes_that_are_not_square() {
    let board = Board::from_symbols(
        2,
        3,
        &rows_of(&["6.....", "......", "......", "......", "......", ".....1"]),
    ).unwrap();
    assert_eq!(board.cells_per_set(), 6);
    assert_eq!(*board.get(Location::Valid(0, 0)), Cell::new_single_digit(6, 5));
    assert_eq!(*board.get(Location::Valid(5, 5)), Cell::new_single_digit(6, 0));
    let mut indices = board.iter_indices(DigitSet::Box(6, 5));
    assert_eq!(indices.next(), Some(Location::Valid(4, 3)));
}

#[test]
fn digit_that_the_grid_lacks_is_malformed() {
    let error = Board::from_symbols(2, 2, &rows_of(&["1234", "..5.", "x...", "...."])).unwrap_err();
    assert_eq!(error, MalformedInput { row: 1, col: 2, symbol: '5' });
    let error = Board::from_symbols(1, 1, &rows_of(&["2"])).unwrap_err();
    assert_eq!(error, MalformedInput { row: 0, col: 0, symbol: '2' });
}

#[test]
fn grid_without_rows_is_the_board_without_cells() {
    let board = Board::from_symbols(0, 3, &Vec::new()).unwrap();
    assert_eq!(board.cells_per_set(), 0);
    assert_eq!(board.rows_per_box(), 0);
    assert_eq!(board.cols_per_box(), 3);
}

#[test]
fn both_constructors_agree_on_nine_digits() {
    let rows = [
        "9..37....",
        "..31...4.",
        "..7......",
        "......317",
        ".8....9..",
        ".92...4..",
        "....9..5.",
        "56...2...",
        ".....4..1",
    ];
    let fixed = Board::from_chars(&symbols(rows)).unwrap();
    let general = Board::from_symbols(3, 3, &rows_of(&rows)).unwrap();
    for r in 0..9 {
        for c in 0..9 {
            assert_eq!(general.get(Location::Valid(r, c)), fixed.get(Location::Valid(r, c)));
        }
    }
}
