use sudoku::board::Board;
use sudoku::location::Location;
use sudoku::search::Outcome;

fn grid(rows: [&str; 9]) -> [[char; 9]; 9] {
    let mut out = [['.'; 9]; 9];
    for (r, row) in rows.iter().enumerate() {
        for (c, ch) in row.chars().enumerate() {
            out[r][c] = ch;
        }
    }
    out
}

fn digits(board: &Board) -> Vec<Vec<usize>> {
    let n = board.cells_per_set();
    let mut out = Vec::new();
    for r in 0..n {
        let mut row = Vec::new();
        for c in 0..n {
            row.push(board.get(Location::Valid(r, c)).get_single_index().unwrap() + 1);
        }
        out.push(row);
    }
    out
}

fn assert_valid(board: &Board, rows_per_box: usize, cols_per_box: usize) {
    let n = rows_per_box * cols_per_box;
    let d = digits(board);
    for i in 0..n {
        let mut row = vec![false; n];
        let mut col = vec![false; n];
        let mut bx = vec![false; n];
        for k in 0..n {
            let a = d[i][k] - 1;
            assert!(!row[a]);
            row[a] = true;
            let b = d[k][i] - 1;
            assert!(!col[b]);
            col[b] = true;
            let r = (i / rows_per_box) * rows_per_box + k / cols_per_box;
            let c = (i % rows_per_box) * cols_per_box + k % cols_per_box;
            let e = d[r][c] - 1;
            assert!(!bx[e]);
            bx[e] = true;
        }
    }
}

const MEDIUM: [&str; 9] = [
    "9..37....",
    "..31...4.",
    "..7......",
    "......317",
    ".8....9..",
    ".92...4..",
    "....9..5.",
    "56...2...",
    ".....4..1",
];

#[test]
fn solve_medium_puzzle() {
    let mut board = Board::from_chars(&grid(MEDIUM)).unwrap();
    assert_eq!(board.solve(), Outcome::Solved);
    assert!(board.is_solved());
    assert_valid(&board, 3, 3);
    let d = digits(&board);
    assert_eq!(d[0][0], 9);
    assert_eq!(d[8][8], 1);
}

#[test]
fn fast_solve_medium_puzzle() {
    let mut board = Board::from_chars(&grid(MEDIUM)).unwrap();
    assert_eq!(board.fast_solve(), Outcome::Solved);
    assert_valid(&board, 3, 3);
}

#[test]
fn top_row_given_solves_to_a_valid_grid() {
    let mut rows = ["........."; 9];
    rows[0] = "123456789";
    let mut board = Board::from_chars(&grid(rows)).unwrap();
    assert_eq!(board.solve(), Outcome::Solved);
    assert_valid(&board, 3, 3);
    assert_eq!(digits(&board)[0], vec![1, 2, 3, 4, 5, 6, 7, 8, 9]);
}

#[test]
fn blank_grids_solve() {
    for (r, c) in [(3usize, 3usize), (2, 3), (3, 2), (2, 2), (1, 1), (1, 4), (4, 4)] {
        let mut board = Board::new(r, c);
        assert_eq!(board.solve(), Outcome::Solved);
        assert_valid(&board, r, c);
        let mut fast = Board::new(r, c);
        assert_eq!(fast.fast_solve(), Outcome::Solved);
        assert_valid(&fast, r, c);
    }
}

#[test]
fn two_fives_in_a_row_are_unsolvable() {
    let mut rows = ["........."; 9];
    rows[0] = "55.......";
    let mut board = Board::from_chars(&grid(rows)).unwrap();
    assert!(board.has_contradiction());
    assert_eq!(board.solve(), Outcome::Unsolvable);
    let mut fast = Board::from_chars(&grid(rows)).unwrap();
    assert_eq!(fast.fast_solve(), Outcome::Unsolvable);
}

#[test]
fn givens_are_kept_when_the_puzzle_is_unsolvable() {
    let mut rows = ["........."; 9];
    rows[0] = "55.......";
    let mut board = Board::from_chars(&grid(rows)).unwrap();
    assert_eq!(board.fast_solve(), Outcome::Unsolvable);
    assert!(!board.is_solved());
    assert_eq!(board.get(Location::Valid(0, 0)).get_single_index(), Some(4));
    assert_eq!(board.get(Location::Valid(0, 1)).get_single_index(), Some(4));
    let mut plain = Board::from_chars(&grid(rows)).unwrap();
    assert_eq!(plain.solve(), Outcome::Unsolvable);
    assert!(!plain.is_solved());
    assert_eq!(plain.get(Location::Valid(0, 0)).get_single_index(), Some(4));
    assert_eq!(plain.get(Location::Valid(0, 1)).get_single_index(), Some(4));
}

#[test]
fn repeated_given_is_never_reported_solved() {
    let mut rows = ["........."; 9];
    rows[0] = "55.......";
    let mut board = Board::from_chars(&grid(rows)).unwrap();
    for fast in [false, true, true, false, false, true] {
        let outcome = if fast { board.fast_solve() } else { board.solve() };
        assert_eq!(outcome, Outcome::Unsolvable);
        assert!(!board.is_solved());
        assert!(board.has_contradiction());
        assert_eq!(board.get(Location::Valid(0, 0)).get_single_index(), Some(4));
        assert_eq!(board.get(Location::Valid(0, 1)).get_single_index(), Some(4));
    }
}

#[test]
fn givens_are_kept_when_the_search_has_to_go_back() {
    let mut board = Board::new(2, 2);
    let givens = [(0usize, 0usize, 0usize), (1, 1, 1), (2, 2, 0), (3, 3, 0)];
    for (r, c, d) in givens {
        board.set(Location::Valid(r, c), sudoku::cell::Cell::new_single_digit(4, d));
    }
    let mut fast = board.clone();
    assert_eq!(board.solve(), Outcome::Unsolvable);
    assert_eq!(fast.fast_solve(), Outcome::Unsolvable);
    for (r, c, d) in givens {
        assert_eq!(board.get(Location::Valid(r, c)).get_single_index(), Some(d));
        assert_eq!(fast.get(Location::Valid(r, c)).get_single_index(), Some(d));
    }
}
