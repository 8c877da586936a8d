use sudoku::board::Board;
use sudoku::cell::Cell;
use sudoku::location::Location;
use sudoku::puzzles::PuzzleToSolve;
use sudoku::render::{append_decimal, append_repeated, decimal_size, width_of};

#[test]
fn decimal_notation() {
    for (v, expected) in [(0usize, "0"), (7, "7"), (9, "9"), (10, "10"), (99, "99"), (100, "100"), (12345, "12345")] {
        let mut out = String::from("x");
        append_decimal(&mut out, v);
        assert_eq!(out, format!("x{}", expected));
        assert_eq!(decimal_size(v), expected.len());
    }
    let mut out = String::new();
    append_decimal(&mut out, usize::MAX);
    assert_eq!(out, format!("{}", usize::MAX));
}

#[test]
fn repeated_symbols() {
    let mut out = String::from("a");
    append_repeated(&mut out, "━", 3);
    append_repeated(&mut out, " ", 0);
    append_repeated(&mut out, "b", 2);
    assert_eq!(out, "a━━━bb");
}

#[test]
fn widths_of_the_numbers() {
    for (n, w) in [(0usize, 0usize), (1, 0), (2, 1), (9, 1), (10, 1), (11, 2), (16, 2), (100, 2), (101, 3), (1000, 3), (1001, 4)] {
        assert_eq!(width_of(n), w);
    }
}

#[test]
fn grid_of_four_digits() {
    let mut board = Board::new(2, 2);
    board.set(Location::Valid(0, 0), Cell::new_single_digit(4, 0));
    board.set(Location::Valid(0, 3), Cell::new_single_digit(4, 3));
    board.set(Location::Valid(1, 1), Cell::new_single_digit(4, 2));
    board.set(Location::Valid(3, 2), Cell::new_single_digit(4, 1));
    let expected = [
        "   ╷   ╻   ╷   ",
        " 1 │   ┃   │ 4 ",
        "───┼───╂───┼───",
        "   │ 3 ┃   │   ",
        "━━━┿━━━╋━━━┿━━━",
        "   │   ┃   │   ",
        "───┼───╂───┼───",
        "   │   ┃ 2 │   ",
        "   ╵   ╹   ╵   ",
        "",
    ];
    assert_eq!(board.render(), expected.join("\n"));
}

#[test]
fn grid_with_flat_boxes() {
    let mut board = Board::new(1, 3);
    board.set(Location::Valid(2, 0), Cell::new_single_digit(3, 2));
    let expected = [
        "   ╷   ╷   ",
        "   │   │   ",
        "━━━┿━━━┿━━━",
        "   │   │   ",
        "━━━┿━━━┿━━━",
        " 3 │   │   ",
        "   ╵   ╵   ",
        "",
    ];
    assert_eq!(board.render(), expected.join("\n"));
}

#[test]
fn grid_with_tall_boxes() {
    let board = Board::new(3, 1);
    let expected = [
        "   ╻   ╻   ",
        "   ┃   ┃   ",
        "───╂───╂───",
        "   ┃   ┃   ",
        "───╂───╂───",
        "   ┃   ┃   ",
        "   ╹   ╹   ",
        "",
    ];
    assert_eq!(board.render(), expected.join("\n"));
}

#[test]
fn grid_of_one_digit() {
    let board = Board::new(1, 1);
    assert_eq!(board.render(), "  \n1 \n  \n");
}

#[test]
fn grid_without_cells() {
    let board = Board::default();
    assert_eq!(board.render(), "\n\n");
}

#[test]
fn numbers_of_two_symbols_stand_flush_right() {
    let mut ten = Board::new(2, 5);
    ten.set(Location::Valid(0, 0), Cell::new_single_digit(10, 9));
    ten.set(Location::Valid(0, 1), Cell::new_single_digit(10, 8));
    let text = ten.render();
    let lines: Vec<&str> = text.split('\n').collect();
    assert_eq!(lines.len(), 22);
    assert_eq!(lines[0], "   ╷   ╷   ╷   ╷   ╻   ╷   ╷   ╷   ╷   ");
    assert_eq!(lines[1], "10 │ 9 │   │   │   ┃   │   │   │   │   ");
    assert_eq!(lines[2], "───┼───┼───┼───┼───╂───┼───┼───┼───┼───");
    assert_eq!(lines[4], "━━━┿━━━┿━━━┿━━━┿━━━╋━━━┿━━━┿━━━┿━━━┿━━━");
    let mut twelve = Board::new(3, 4);
    twelve.set(Location::Valid(0, 0), Cell::new_single_digit(12, 11));
    twelve.set(Location::Valid(0, 1), Cell::new_single_digit(12, 2));
    let text = twelve.render();
    let lines: Vec<&str> = text.split('\n').collect();
    assert_eq!(lines[0], "    ╷    ╷    ╷    ╻    ╷    ╷    ╷    ╻    ╷    ╷    ╷    ");
    assert_eq!(lines[1], " 12 │  3 │    │    ┃    │    │    │    ┃    │    │    │    ");
    assert_eq!(lines[6], "━━━━┿━━━━┿━━━━┿━━━━╋━━━━┿━━━━┿━━━━┿━━━━╋━━━━┿━━━━┿━━━━┿━━━━");
}

#[test]
fn grid_of_nine_digits() {
    let expected = [
        "   ╷   ╷   ╻   ╷   ╷   ╻   ╷   ╷   ",
        " 9 │   │   ┃ 3 │ 7 │   ┃   │   │   ",
        "───┼───┼───╂───┼───┼───╂───┼───┼───",
        "   │   │ 3 ┃ 1 │   │   ┃   │ 4 │   ",
        "───┼───┼───╂───┼───┼───╂───┼───┼───",
        "   │   │ 7 ┃   │   │   ┃   │   │   ",
        "━━━┿━━━┿━━━╋━━━┿━━━┿━━━╋━━━┿━━━┿━━━",
        "   │   │   ┃   │   │   ┃ 3 │ 1 │ 7 ",
        "───┼───┼───╂───┼───┼───╂───┼───┼───",
        "   │ 8 │   ┃   │   │   ┃ 9 │   │   ",
        "───┼───┼───╂───┼───┼───╂───┼───┼───",
        "   │ 9 │ 2 ┃   │   │   ┃ 4 │   │   ",
        "━━━┿━━━┿━━━╋━━━┿━━━┿━━━╋━━━┿━━━┿━━━",
        "   │   │   ┃   │ 9 │   ┃   │ 5 │   ",
        "───┼───┼───╂───┼───┼───╂───┼───┼───",
        " 5 │ 6 │   ┃   │   │ 2 ┃   │   │   ",
        "───┼───┼───╂───┼───┼───╂───┼───┼───",
        "   │   │   ┃   │   │ 4 ┃   │   │ 1 ",
        "   ╵   ╵   ╹   ╵   ╵   ╹   ╵   ╵   ",
        "",
    ];
    assert_eq!(PuzzleToSolve::Medium2.board().render(), expected.join("\n"));
}

#[test]
fn unsolved_cells_are_left_empty() {
    let mut board = Board::new(1, 2);
    board.get_mut(Location::Valid(0, 0)).possibilities = vec![false, false];
    board.get_mut(Location::Valid(1, 1)).possibilities = vec![false, true];
    assert_eq!(board.render(), "   ╷   \n   │   \n━━━┿━━━\n   │ 2 \n   ╵   \n");
}
