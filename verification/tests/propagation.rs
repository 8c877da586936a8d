use sudoku::board::Board;
use sudoku::cell::Cell;
use sudoku::digit_set::DigitSet;
use sudoku::location::Location;
use sudoku::puzzles::PuzzleToSolve;

fn symbols(rows: [&str; 9]) -> [[char; 9]; 9] {
    let mut out = [['.'; 9]; 9];
    for (r, row) in rows.iter().enumerate() {
        for (c, ch) in row.chars().enumerate() {
            out[r][c] = ch;
        }
    }
    out
}

fn cells(board: &Board) -> Vec<Cell> {
    let n = board.cells_per_set();
    let mut out = Vec::new();
    for r in 0..n {
        for c in 0..n {
            out.push(board.get(Location::Valid(r, c)).clone());
        }
    }
    out
}

fn give(board: &mut Board, r: usize, c: usize, digit: usize) {
    let n = board.cells_per_set();
    board.set(Location::Valid(r, c), Cell::new_single_digit(n, digit));
}

fn allow_only(board: &mut Board, r: usize, c: usize, digits: &[usize]) {
    let n = board.cells_per_set();
    let mut allowed = vec![false; n];
    for d in digits {
        allowed[*d] = true;
    }
    let cell = board.get_mut(Location::Valid(r, c));
    cell.retain(&allowed);
    cell.check_newly_solved();
}

fn allowed(board: &Board, r: usize, c: usize) -> Vec<usize> {
    let cell = board.get(Location::Valid(r, c));
    (0..cell.possibilities.len()).filter(|d| cell.possibilities[*d]).collect()
}

#[test]
fn reduction_strikes_the_digits_that_the_region_holds() {
    let mut board = Board::new(2, 2);
    give(&mut board, 0, 0, 2);
    assert_eq!(board.reduce_possibilities(DigitSet::Row(4, 0)), Some(false));
    assert_eq!(allowed(&board, 0, 0), vec![2]);
    assert_eq!(allowed(&board, 0, 1), vec![0, 1, 3]);
    assert_eq!(allowed(&board, 0, 2), vec![0, 1, 3]);
    assert_eq!(allowed(&board, 0, 3), vec![0, 1, 3]);
    assert_eq!(allowed(&board, 1, 0), vec![0, 1, 2, 3]);
    assert_eq!(board.reduce_possibilities(DigitSet::Box(4, 0)), Some(false));
    assert_eq!(allowed(&board, 1, 0), vec![0, 1, 3]);
    assert_eq!(allowed(&board, 1, 1), vec![0, 1, 3]);
    assert_eq!(allowed(&board, 1, 2), vec![0, 1, 2, 3]);
    assert_eq!(board.reduce_possibilities(DigitSet::Col(4, 0)), Some(false));
    assert_eq!(allowed(&board, 3, 0), vec![0, 1, 3]);
    assert_eq!(allowed(&board, 3, 1), vec![0, 1, 2, 3]);
}

#[test]
fn reduction_reports_a_cell_that_became_solved() {
    let mut board = Board::new(2, 2);
    give(&mut board, 2, 0, 0);
    give(&mut board, 2, 1, 1);
    give(&mut board, 2, 3, 3);
    assert_eq!(board.reduce_possibilities(DigitSet::Row(4, 2)), Some(true));
    assert_eq!(*board.get(Location::Valid(2, 2)), Cell::new_single_digit(4, 2));
    assert_eq!(board.reduce_possibilities(DigitSet::Row(4, 2)), Some(false));
}

#[test]
fn reduction_finds_the_cell_left_without_a_digit() {
    let mut board = Board::new(2, 2);
    give(&mut board, 0, 0, 0);
    give(&mut board, 0, 1, 1);
    allow_only(&mut board, 0, 3, &[0, 1]);
    assert_eq!(board.reduce_possibilities(DigitSet::Row(4, 0)), None);
    assert_eq!(board.get(Location::Valid(0, 3)).num_possibilities(), 0);
    assert!(!board.get(Location::Valid(0, 3)).solved);
}

#[test]
fn reduction_leaves_the_cells_behind_an_emptied_cell_alone() {
    let mut board = Board::new(2, 2);
    give(&mut board, 1, 0, 2);
    give(&mut board, 1, 3, 3);
    allow_only(&mut board, 1, 1, &[2, 3]);
    assert_eq!(board.reduce_possibilities(DigitSet::Row(4, 1)), None);
    assert_eq!(allowed(&board, 1, 0), vec![2]);
    assert_eq!(allowed(&board, 1, 1), Vec::<usize>::new());
    assert_eq!(allowed(&board, 1, 2), vec![0, 1, 2, 3]);
    assert_eq!(allowed(&board, 1, 3), vec![3]);
}

#[test]
fn reduction_of_a_reduced_region_changes_nothing() {
    let mut board = Board::new(2, 3);
    give(&mut board, 1, 4, 5);
    give(&mut board, 1, 0, 2);
    assert_eq!(board.reduce_possibilities(DigitSet::Row(6, 1)), Some(false));
    let before = cells(&board);
    assert_eq!(board.reduce_possibilities(DigitSet::Row(6, 1)), Some(false));
    assert_eq!(cells(&board), before);
}

#[test]
fn single_location_of_a_digit() {
    let mut board = Board::new(2, 2);
    assert_eq!(board.find_single_location(DigitSet::Row(4, 1), 0), Location::Duplicate);
    allow_only(&mut board, 1, 0, &[1, 2, 3]);
    allow_only(&mut board, 1, 1, &[1, 2, 3]);
    allow_only(&mut board, 1, 3, &[1, 2, 3]);
    assert_eq!(board.find_single_location(DigitSet::Row(4, 1), 0), Location::Valid(1, 2));
    assert_eq!(board.find_single_location(DigitSet::Row(4, 1), 1), Location::Duplicate);
    allow_only(&mut board, 1, 2, &[1, 2, 3]);
    assert_eq!(board.find_single_location(DigitSet::Row(4, 1), 0), Location::Invalid);
    assert_eq!(board.find_single_location(DigitSet::Col(4, 2), 0), Location::Duplicate);
}

#[test]
fn hidden_single_is_placed_and_propagated() {
    let mut board = Board::new(2, 2);
    allow_only(&mut board, 1, 0, &[1, 2, 3]);
    allow_only(&mut board, 1, 1, &[1, 2, 3]);
    allow_only(&mut board, 1, 3, &[1, 2, 3]);
    assert_eq!(board.check_single_location(DigitSet::Row(4, 1)), Some(true));
    assert_eq!(*board.get(Location::Valid(1, 2)), Cell::new_single_digit(4, 0));
    assert_eq!(allowed(&board, 0, 2), vec![1, 2, 3]);
    assert_eq!(allowed(&board, 3, 2), vec![1, 2, 3]);
    assert_eq!(allowed(&board, 0, 3), vec![1, 2, 3]);
    assert_eq!(allowed(&board, 0, 0), vec![0, 1, 2, 3]);
}

#[test]
fn no_hidden_single_leaves_the_board_alone() {
    let mut board = Board::new(2, 2);
    give(&mut board, 0, 0, 0);
    let before = cells(&board);
    assert_eq!(board.check_single_location(DigitSet::Row(4, 0)), Some(false));
    assert_eq!(cells(&board), before);
}

#[test]
fn digit_without_a_home_is_unsolvable() {
    let mut board = Board::new(2, 2);
    for c in 0..4 {
        allow_only(&mut board, 3, c, &[0, 1, 2]);
    }
    let before = cells(&board);
    assert_eq!(board.check_single_location(DigitSet::Row(4, 3)), None);
    assert_eq!(cells(&board), before);
    assert_eq!(board.reduce_and_check_singles_loop(), None);
    assert_eq!(board.fast_reduction_loop(), None);
}

#[test]
fn region_checks() {
    let mut board = Board::new(2, 2);
    give(&mut board, 0, 0, 0);
    give(&mut board, 0, 1, 1);
    give(&mut board, 0, 2, 2);
    assert_eq!(board.check_solved_set(DigitSet::Row(4, 0)), Some(false));
    assert_eq!(board.has_contradiction_set(DigitSet::Row(4, 0)), Some(false));
    give(&mut board, 0, 3, 3);
    assert_eq!(board.check_solved_set(DigitSet::Row(4, 0)), Some(true));
    assert_eq!(board.has_contradiction_set(DigitSet::Row(4, 0)), Some(false));
    assert_eq!(board.check_solved_set(DigitSet::Col(4, 0)), Some(false));
    give(&mut board, 0, 3, 2);
    assert_eq!(board.check_solved_set(DigitSet::Row(4, 0)), Some(false));
    assert_eq!(board.has_contradiction_set(DigitSet::Row(4, 0)), Some(true));
    assert_eq!(board.has_contradiction_set(DigitSet::Col(4, 3)), Some(false));
    assert!(board.has_contradiction());
    assert!(!board.is_solved());
}

#[test]
fn contradiction_in_a_column_and_in_a_box() {
    let mut column = Board::new(3, 3);
    give(&mut column, 0, 4, 6);
    give(&mut column, 8, 4, 6);
    assert!(column.has_contradiction());
    assert_eq!(column.has_contradiction_set(DigitSet::Col(9, 4)), Some(true));
    let mut boxed = Board::new(3, 3);
    give(&mut boxed, 3, 6, 1);
    give(&mut boxed, 5, 8, 1);
    assert!(boxed.has_contradiction());
    assert_eq!(boxed.has_contradiction_set(DigitSet::Box(9, 5)), Some(true));
    assert_eq!(boxed.has_contradiction_set(DigitSet::Row(9, 3)), Some(false));
    let mut fine = Board::new(3, 3);
    give(&mut fine, 3, 6, 1);
    give(&mut fine, 6, 8, 1);
    assert!(!fine.has_contradiction());
}

#[test]
fn naked_single_is_placed_without_a_guess() {
    let mut board = Board::from_chars(&symbols([
        ".23456789",
        ".........",
        ".........",
        ".........",
        ".........",
        ".........",
        ".........",
        ".........",
        ".........",
    ])).unwrap();
    assert_eq!(board.reduce_and_check_singles_loop(), Some(true));
    assert_eq!(*board.get(Location::Valid(0, 0)), Cell::new_single_digit(9, 0));
    let mut fast = Board::from_chars(&symbols([
        ".23456789",
        ".........",
        ".........",
        ".........",
        ".........",
        ".........",
        ".........",
        ".........",
        ".........",
    ])).unwrap();
    assert_eq!(fast.fast_reduction_loop(), Some(()));
    assert_eq!(*fast.get(Location::Valid(0, 0)), Cell::new_single_digit(9, 0));
}

#[test]
fn cell_down_to_one_digit_is_kept_and_struck_from_its_regions() {
    let mut board = Board::new(3, 3);
    give(&mut board, 4, 4, 6);
    assert_eq!(board.reduce_and_check_singles_loop(), Some(false));
    assert_eq!(*board.get(Location::Valid(4, 4)), Cell::new_single_digit(9, 6));
    for k in 0..9 {
        if k != 4 {
            assert!(!board.get(Location::Valid(4, k)).possibilities[6]);
            assert!(!board.get(Location::Valid(k, 4)).possibilities[6]);
        }
    }
    assert!(!board.get(Location::Valid(3, 3)).possibilities[6]);
    assert!(!board.get(Location::Valid(5, 5)).possibilities[6]);
    assert!(board.get(Location::Valid(0, 0)).possibilities[6]);
    assert_eq!(board.get(Location::Valid(4, 0)).num_possibilities(), 8);
}

#[test]
fn second_reduction_loop_makes_no_progress() {
    let rows = [
        "9..37....",
        "..31...4.",
        "..7......",
        "......317",
        ".8....9..",
        ".92...4..",
        "....9..5.",
        "56...2...",
        ".....4..1",
    ];
    let mut board = Board::from_chars(&symbols(rows)).unwrap();
    assert_eq!(board.reduce_and_check_singles_loop(), Some(true));
    let once = cells(&board);
    assert_eq!(board.reduce_and_check_singles_loop(), Some(false));
    assert_eq!(cells(&board), once);
    let mut fast = Board::from_chars(&symbols(rows)).unwrap();
    assert_eq!(fast.fast_reduction_loop(), Some(()));
    let once = cells(&fast);
    assert_eq!(fast.fast_reduction_loop(), Some(()));
    assert_eq!(cells(&fast), once);
    assert_eq!(fast.reduce_and_check_singles_loop(), Some(false));
    assert_eq!(cells(&fast), once);
}

#[test]
fn reduction_loop_on_a_blank_board_does_nothing() {
    let mut board = Board::new(2, 3);
    assert_eq!(board.reduce_and_check_singles_loop(), Some(false));
    assert_eq!(cells(&board), vec![Cell::new(6); 36]);
    assert_eq!(board.fast_reduction_loop(), Some(()));
    assert_eq!(cells(&board), vec![Cell::new(6); 36]);
}

#[test]
fn passes_report_progress() {
    let mut board = Board::new(2, 2);
    give(&mut board, 0, 0, 0);
    give(&mut board, 0, 1, 1);
    give(&mut board, 0, 2, 2);
    assert_eq!(board.reduce_pass(), Some(true));
    assert_eq!(*board.get(Location::Valid(0, 3)), Cell::new_single_digit(4, 3));
    let mut quiet = Board::new(2, 2);
    assert_eq!(quiet.reduce_pass(), Some(false));
    assert_eq!(quiet.singles_pass(), Some(false));
    assert_eq!(cells(&quiet), vec![Cell::new(4); 16]);
}

#[test]
fn propagation_round_checks_for_contradictions_first() {
    let mut board = Board::new(2, 2);
    give(&mut board, 1, 1, 3);
    give(&mut board, 1, 2, 3);
    let before = cells(&board);
    assert!(!board.propagate(false));
    assert_eq!(cells(&board), before);
    assert!(!board.propagate(true));
    assert_eq!(cells(&board), before);
    let mut fine = Board::new(2, 2);
    give(&mut fine, 1, 1, 3);
    assert!(fine.propagate(true));
    assert_eq!(allowed(&fine, 1, 0), vec![0, 1, 2]);
}

#[test]
fn used_digits_of_the_regions() {
    let mut board = Board::new(2, 3);
    give(&mut board, 1, 4, 5);
    give(&mut board, 3, 0, 2);
    let rows = board.used_digits(0);
    let cols = board.used_digits(1);
    let boxes = board.used_digits(2);
    for j in 0..6 {
        for d in 0..6 {
            assert_eq!(rows[j][d], (j, d) == (1, 5) || (j, d) == (3, 2));
            assert_eq!(cols[j][d], (j, d) == (4, 5) || (j, d) == (0, 2));
            assert_eq!(boxes[j][d], (j, d) == (1, 5) || (j, d) == (2, 2));
        }
    }
    assert_eq!(board.box_index(1, 4), 1);
    assert_eq!(board.box_index(3, 0), 2);
    assert_eq!(board.box_index(5, 5), 5);
    assert_eq!(
        board.region_used(DigitSet::Row(6, 1)),
        vec![false, false, false, false, false, true]
    );
}

#[test]
fn both_reduction_loops_end_on_the_same_board() {
    let puzzles = [
        PuzzleToSolve::VeryHard,
        PuzzleToSolve::Hard0,
        PuzzleToSolve::Hard1,
        PuzzleToSolve::Medium0,
        PuzzleToSolve::Medium1,
        PuzzleToSolve::Medium2,
        PuzzleToSolve::TopRow,
        PuzzleToSolve::Blank,
    ];
    for puzzle in puzzles {
        let mut plain = puzzle.board();
        let mut fused = puzzle.board();
        assert!(plain.reduce_and_check_singles_loop().is_some());
        assert_eq!(fused.fast_reduction_loop(), Some(()));
        assert!(!plain.has_contradiction());
        assert_eq!(cells(&plain), cells(&fused));
    }
}

#[test]
fn placement_of_a_hidden_single_is_followed_by_a_reduction_of_every_region() {
    let mut board = Board::new(2, 2);
    for c in 1..4 {
        board.set(
            Location::Valid(0, c),
            Cell { possibilities: vec![false, true, true, true], solved: false },
        );
    }
    assert_eq!(board.check_single_location(DigitSet::Row(4, 0)), Some(true));
    assert_eq!(*board.get(Location::Valid(0, 0)), Cell::new_single_digit(4, 0));
    assert_eq!(allowed(&board, 1, 0), vec![1, 2, 3]);
    assert_eq!(allowed(&board, 2, 0), vec![1, 2, 3]);
    assert_eq!(allowed(&board, 3, 0), vec![1, 2, 3]);
    assert_eq!(allowed(&board, 1, 1), vec![1, 2, 3]);
    for c in 1..4 {
        assert_eq!(allowed(&board, 0, c), vec![1, 2, 3]);
        assert!(!board.get(Location::Valid(0, c)).solved);
    }
    assert_eq!(allowed(&board, 1, 2), vec![0, 1, 2, 3]);
    assert_eq!(allowed(&board, 3, 3), vec![0, 1, 2, 3]);
}

#[test]
fn digit_of_a_solved_cell_is_struck_from_every_cell_of_its_regions() {
    for fast in [false, true] {
        let mut board = Board::new(2, 3);
        give(&mut board, 2, 4, 3);
        assert!(board.propagate(fast));
        assert!(!board.has_contradiction());
        assert_eq!(*board.get(Location::Valid(2, 4)), Cell::new_single_digit(6, 3));
        for r in 0..6 {
            for c in 0..6 {
                let peer = (r, c) != (2, 4) && (r == 2 || c == 4 || (r / 2 == 1 && c / 3 == 1));
                assert_eq!(board.get(Location::Valid(r, c)).possibilities[3], !peer);
            }
        }
    }
}

fn one_single_among_pairs() -> Board {
    let mut board = Board::new(3, 3);
    give(&mut board, 0, 0, 0);
    allow_only(&mut board, 0, 1, &[0, 1]);
    allow_only(&mut board, 1, 1, &[0, 1]);
    board
}

#[test]
fn propagation_that_meets_a_contradiction_may_end_on_a_digit_held_twice() {
    let mut plain = one_single_among_pairs();
    assert!(!plain.has_contradiction());
    assert_eq!(plain.reduce_and_check_singles_loop(), Some(true));
    assert!(plain.has_contradiction());
    assert_eq!(*plain.get(Location::Valid(0, 0)), Cell::new_single_digit(9, 0));
    assert_eq!(*plain.get(Location::Valid(0, 1)), Cell::new_single_digit(9, 1));
    assert_eq!(*plain.get(Location::Valid(1, 1)), Cell::new_single_digit(9, 0));
    let mut fused = one_single_among_pairs();
    assert_eq!(fused.fast_reduction_loop(), None);
    assert_eq!(*fused.get(Location::Valid(0, 0)), Cell::new_single_digit(9, 0));
}

#[test]
fn propagation_round_ends_stable_or_dead() {
    for fast in [false, true] {
        let mut board = PuzzleToSolve::Medium2.board();
        assert!(board.propagate(fast));
        let standstill = cells(&board);
        assert_eq!(board.reduce_and_check_singles_loop(), Some(false));
        assert_eq!(cells(&board), standstill);
        let mut dead = Board::new(2, 2);
        for c in 0..4 {
            allow_only(&mut dead, 3, c, &[0, 1, 2]);
        }
        assert!(!dead.has_contradiction());
        assert!(!dead.propagate(fast));
        assert_eq!(dead.find_single_location(DigitSet::Row(4, 3), 3), Location::Invalid);
    }
}
