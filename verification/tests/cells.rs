use sudoku::boolean_operation::BooleanOperation;
use sudoku::cell::{Cell, InvalidSymbol};
use sudoku::digit_set::DigitSet;
use sudoku::location::Location;

#[test]
fn blank_cell_allows_every_digit() {
    let cell = Cell::new(9);
    assert_eq!(cell.possibilities, vec![true; 9]);
    assert!(!cell.solved);
    assert_eq!(cell.num_possibilities(), 9);
    assert_eq!(cell.get_single_index(), None);
    assert_eq!(cell.first_possibility(), Some(0));
}

#[test]
fn blank_cell_of_one_digit_is_solved() {
    let cell = Cell::new(1);
    assert!(cell.solved);
    assert_eq!(cell.get_single_index(), Some(0));
}

#[test]
fn blank_cell_of_no_digit_is_empty() {
    let cell = Cell::new(0);
    assert!(!cell.solved);
    assert_eq!(cell.num_possibilities(), 0);
    assert_eq!(cell.get_single_index(), None);
    assert_eq!(cell.first_possibility(), None);
}

#[test]
fn given_digit_is_the_only_possibility() {
    let cell = Cell::new_single_digit(9, 4);
    assert!(cell.solved);
    assert_eq!(cell.num_possibilities(), 1);
    assert_eq!(cell.get_single_index(), Some(4));
    assert_eq!(cell.first_possibility(), Some(4));
    let mut expected = vec![false; 9];
    expected[4] = true;
    assert_eq!(cell.possibilities, expected);
}

#[test]
fn symbols_one_to_nine_are_digits_zero_to_eight() {
    let symbols = ['1', '2', '3', '4', '5', '6', '7', '8', '9'];
    for (d, symbol) in symbols.iter().enumerate() {
        let cell = Cell::new_single_char(9, *symbol).unwrap();
        assert_eq!(cell, Cell::new_single_digit(9, d));
    }
}

#[test]
fn other_symbols_are_refused() {
    for symbol in ['0', '.', 'a', ' ', ':', '/'] {
        assert_eq!(Cell::new_single_char(9, symbol), Err(InvalidSymbol { symbol }));
    }
}

#[test]
fn digits_beyond_the_grid_are_refused() {
    assert_eq!(Cell::new_single_char(4, '5'), Err(InvalidSymbol { symbol: '5' }));
    assert_eq!(Cell::new_single_char(4, '4'), Ok(Cell::new_single_digit(4, 3)));
    assert_eq!(Cell::new_single_char(0, '1'), Err(InvalidSymbol { symbol: '1' }));
}

#[test]
fn single_index_needs_exactly_one_possibility() {
    let mut cell = Cell::new(4);
    cell.possibilities = vec![false, true, false, true];
    assert_eq!(cell.get_single_index(), None);
    assert_eq!(cell.num_possibilities(), 2);
    assert_eq!(cell.first_possibility(), Some(1));
    cell.possibilities = vec![false, false, false, true];
    assert_eq!(cell.get_single_index(), Some(3));
    cell.possibilities = vec![false; 4];
    assert_eq!(cell.get_single_index(), None);
    assert_eq!(cell.first_possibility(), None);
}

#[test]
fn newly_solved_is_reported_once() {
    let mut cell = Cell::new(4);
    assert!(!cell.check_newly_solved());
    assert!(!cell.solved);
    cell.possibilities = vec![false, false, true, false];
    assert!(cell.check_newly_solved());
    assert!(cell.solved);
    assert!(!cell.check_newly_solved());
    assert!(cell.solved);
    assert_eq!(cell.possibilities, vec![false, false, true, false]);
}

#[test]
fn emptied_cell_is_not_solved() {
    let mut cell = Cell::new_single_digit(4, 2);
    cell.possibilities = vec![false; 4];
    assert!(!cell.check_newly_solved());
    assert!(!cell.solved);
}

#[test]
fn retain_keeps_what_both_allow() {
    let mut cell = Cell::new(4);
    cell.possibilities = vec![true, true, false, false];
    cell.retain(&vec![true, false, true, false]);
    assert_eq!(cell.possibilities, vec![true, false, false, false]);
    assert!(!cell.solved);
    assert!(cell.check_newly_solved());
}

#[test]
fn clone_of_a_cell_is_equal_and_independent() {
    let cell = Cell::new_single_digit(6, 1);
    let mut copy = cell.clone();
    assert_eq!(copy, cell);
    copy.possibilities[0] = true;
    assert_eq!(cell, Cell::new_single_digit(6, 1));
}

#[test]
fn cell_text_is_the_digit_counted_from_one() {
    assert_eq!(Cell::new_single_digit(9, 0).render(), "1");
    assert_eq!(Cell::new_single_digit(9, 8).render(), "9");
    assert_eq!(Cell::new_single_digit(16, 11).render(), "12");
    assert_eq!(Cell::new(9).render(), " ");
}

#[test]
fn operations_fold_from_their_neutral_element() {
    assert!(!BooleanOperation::Or.initial());
    assert!(!BooleanOperation::OrLazy.initial());
    assert!(BooleanOperation::And.initial());
    assert!(BooleanOperation::AndLazy.initial());
    for a in [false, true] {
        for b in [false, true] {
            assert_eq!(BooleanOperation::Or.combine(a, b), a || b);
            assert_eq!(BooleanOperation::OrLazy.combine(a, b), a || b);
            assert_eq!(BooleanOperation::And.combine(a, b), a && b);
            assert_eq!(BooleanOperation::AndLazy.combine(a, b), a && b);
        }
    }
    assert!(BooleanOperation::OrLazy.is_lazy());
    assert!(BooleanOperation::AndLazy.is_lazy());
    assert!(!BooleanOperation::Or.is_lazy());
    assert!(!BooleanOperation::And.is_lazy());
}

#[test]
fn set_sizes() {
    assert_eq!(DigitSet::Row(9, 3).size(), 9);
    assert_eq!(DigitSet::Col(6, 0).size(), 6);
    assert_eq!(DigitSet::Box(4, 3).size(), 4);
    assert_eq!(DigitSet::All(9).size(), 81);
    assert_eq!(DigitSet::All(0).size(), 0);
}

#[test]
fn set_and_location_texts() {
    assert_eq!(DigitSet::Row(9, 3).render(), "row 3");
    assert_eq!(DigitSet::Col(16, 12).render(), "col 12");
    assert_eq!(DigitSet::Box(9, 0).render(), "box 0");
    assert_eq!(DigitSet::All(9).render(), "all cells");
    assert_eq!(Location::Valid(4, 10).render(), "(4, 10)");
    assert_eq!(Location::Duplicate.render(), "Duplicate location");
    assert_eq!(Location::Invalid.render(), "Invalid location");
}
