use sudoku::board::Board;
use sudoku::cell::Cell;
use sudoku::location::Location;
use sudoku::puzzle_generator::{open_cells, place_seed, PuzzleGenerator, MAX_SEEDINGS};
use sudoku::search::Outcome;

fn cells(board: &Board) -> Vec<Cell> {
    let n = board.cells_per_set();
    let mut out = Vec::new();
    for r in 0..n {
        for c in 0..n {
            out.push(board.get(Location::Valid(r, c)).clone());
        }
    }
    out
}

#[test]
fn open_cells_are_numbered_in_order() {
    assert_eq!(open_cells(0), Vec::<usize>::new());
    assert_eq!(open_cells(5), vec![0, 1, 2, 3, 4]);
}

#[test]
fn seed_goes_to_the_drawn_cell() {
    let mut board = Board::new(2, 2);
    let mut open = open_cells(16);
    place_seed(&mut board, &mut open, 2, 6);
    assert_eq!(*board.get(Location::Valid(1, 2)), Cell::new_single_digit(4, 2));
    assert_eq!(open, vec![0, 1, 2, 3, 4, 5, 15, 7, 8, 9, 10, 11, 12, 13, 14]);
    place_seed(&mut board, &mut open, 0, 6);
    assert_eq!(*board.get(Location::Valid(3, 3)), Cell::new_single_digit(4, 0));
    assert_eq!(open, vec![0, 1, 2, 3, 4, 5, 14, 7, 8, 9, 10, 11, 12, 13]);
    place_seed(&mut board, &mut open, 1, 13);
    assert_eq!(*board.get(Location::Valid(3, 1)), Cell::new_single_digit(4, 1));
    assert_eq!(open, vec![0, 1, 2, 3, 4, 5, 14, 7, 8, 9, 10, 11, 12]);
    let given = cells(&board).iter().filter(|cell| cell.solved).count();
    assert_eq!(given, 3);
}

#[test]
fn seeded_board_holds_each_digit_but_the_last_once() {
    let mut generator = PuzzleGenerator::new();
    for (rows_per_box, cols_per_box) in [(3usize, 3usize), (2, 3), (2, 2), (1, 2), (1, 1)] {
        let n = rows_per_box * cols_per_box;
        for _ in 0..5 {
            let board = generator.seeded_board(rows_per_box, cols_per_box);
            assert_eq!(board.rows_per_box(), rows_per_box);
            assert_eq!(board.cols_per_box(), cols_per_box);
            let mut count = vec![0usize; n];
            for cell in cells(&board) {
                if n > 1 && cell != Cell::new(n) {
                    assert!(cell.solved);
                    count[cell.get_single_index().unwrap()] += 1;
                }
            }
            let mut expected = vec![1usize; n];
            expected[n - 1] = 0;
            assert_eq!(count, expected);
        }
    }
}

#[test]
fn generated_puzzles_are_solved() {
    let mut generator = PuzzleGenerator::new();
    for (rows_per_box, cols_per_box) in [(3usize, 3usize), (2, 3), (3, 2), (2, 2), (1, 3)] {
        let n = rows_per_box * cols_per_box;
        for _ in 0..3 {
            let mut puzzle = generator.generate_puzzle(rows_per_box, cols_per_box);
            assert_eq!(puzzle.rows_per_box(), rows_per_box);
            assert_eq!(puzzle.cols_per_box(), cols_per_box);
            assert!(!puzzle.has_contradiction());
            let start = cells(&puzzle);
            let given = start.iter().filter(|cell| cell.solved).count();
            assert!(given >= 2 * n);
            assert!(given < n * n);
            for cell in start.iter() {
                assert!(cell.solved || *cell == Cell::new(n));
            }
            assert_eq!(puzzle.solve(), Outcome::Solved);
            assert!(puzzle.is_solved());
            let solution = cells(&puzzle);
            for i in 0..start.len() {
                if start[i].solved {
                    assert_eq!(solution[i], start[i]);
                }
            }
        }
    }
}

#[test]
fn small_grids_are_generated_whole() {
    let mut generator = PuzzleGenerator::new();
    for (rows_per_box, cols_per_box) in [(1usize, 1usize), (1, 2), (2, 1)] {
        let n = rows_per_box * cols_per_box;
        let mut puzzle = generator.generate_puzzle(rows_per_box, cols_per_box);
        assert!(puzzle.is_solved());
        assert!(cells(&puzzle).iter().all(|cell| cell.solved));
        assert_eq!(cells(&puzzle).len(), n * n);
    }
}

#[test]
fn seedings_are_bounded() {
    assert_eq!(MAX_SEEDINGS, 16);
}
