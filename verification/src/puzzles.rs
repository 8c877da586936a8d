//! Puzzles to try the solver on.

use vstd::prelude::*;
use crate::board::{symbol_cell, Board};
use crate::cell::CellView;
use crate::model::BoardView;

verus! {

/// The puzzles that come with the solver, each a 9 by 9 grid.
#[derive(Clone, Copy, PartialEq, Eq, Structural, Debug)]
pub enum PuzzleToSolve {
    /// A very hard puzzle: it takes the search far longer than the others.
    VeryHard,
    /// A puzzle that people find quite hard.
    Hard0,
    /// Another puzzle that people find quite hard.
    Hard1,
    /// A puzzle that is not that hard.
    Medium0,
    /// A second puzzle that is not that hard.
    Medium1,
    /// A third puzzle that is not that hard.
    Medium2,
    /// The digits in order in the top row, and nothing else.
    TopRow,
    /// The blank grid.
    Blank,
}

impl PuzzleToSolve {
    /// The symbols of the puzzle, row by row: `'.'` for a blank cell and
    /// `'1'` to `'9'` for a given digit.
    pub fn grid(self) -> (symbols: [[char; 9]; 9])
        ensures
            forall|r: int, c: int|
                0 <= r < 9 && 0 <= c < 9 ==> symbol_cell(9, #[trigger] symbols[r][c]) is Some,
            self is Blank ==> forall|r: int, c: int|
                0 <= r < 9 && 0 <= c < 9 ==> #[trigger] symbols[r][c] == '.',
            self is TopRow ==> forall|r: int, c: int|
                0 <= r < 9 && 0 <= c < 9 ==> symbol_cell(9, #[trigger] symbols[r][c]) == Some(
                    if r == 0 {
                        CellView::single(9, c)
                    } else {
                        CellView::blank(9)
                    },
                ),
    {
        match self {
            PuzzleToSolve::VeryHard => [
                ['.', '.', '.', '.', '.', '.', '.', '.', '.'],
                ['.', '9', '.', '.', '1', '.', '.', '3', '.'],
                ['.', '.', '6', '.', '2', '.', '7', '.', '.'],
                ['.', '.', '.', '3', '.', '4', '.', '.', '.'],
                ['2', '1', '.', '.', '.', '.', '.', '9', '8'],
                ['.', '.', '.', '.', '.', '.', '.', '.', '.'],
                ['.', '.', '2', '5', '.', '6', '4', '.', '.'],
                ['.', '8', '.', '.', '.', '.', '.', '1', '.'],
                ['.', '.', '.', '.', '.', '.', '.', '.', '.'],
            ],
            PuzzleToSolve::Hard0 => [
                ['.', '.', '.', '.', '8', '.', '.', '7', '3'],
                ['.', '1', '4', '.', '.', '.', '.', '.', '.'],
                ['.', '.', '.', '.', '.', '.', '.', '.', '.'],
                ['7', '.', '.', '.', '3', '.', '.', '.', '.'],
                ['.', '5', '.', '.', '.', '.', '4', '.', '.'],
                ['.', '.', '.', '6', '.', '.', '.', '2', '.'],
                ['.', '.', '6', '4', '.', '5', '2', '.', '.'],
                ['.', '.', '.', '1', '.', '.', '.', '.', '.'],
                ['3', '.', '.', '.', '.', '.', '.', '.', '.'],
            ],
            PuzzleToSolve::Hard1 => [
                ['.', '.', '.', '.', '.', '.', '9', '.', '1'],
                ['.', '5', '.', '7', '.', '.', '.', '.', '.'],
                ['2', '8', '.', '.', '.', '.', '.', '.', '.'],
                ['.', '.', '.', '5', '.', '.', '.', '6', '.'],
                ['1', '.', '.', '4', '.', '.', '.', '.', '.'],
                ['3', '.', '.', '.', '.', '.', '.', '.', '.'],
                ['.', '6', '.', '.', '.', '.', '.', '5', '.'],
                ['.', '.', '.', '.', '3', '2', '.', '.', '.'],
                ['.', '.', '.', '.', '1', '.', '7', '.', '.'],
            ],
            PuzzleToSolve::Medium0 => [
                ['.', '.', '.', '4', '8', '.', '6', '.', '.'],
                ['.', '.', '.', '.', '.', '.', '2', '.', '.'],
                ['.', '7', '3', '.', '6', '.', '.', '.', '.'],
                ['.', '.', '4', '.', '.', '1', '.', '5', '.'],
                ['.', '.', '9', '.', '.', '.', '.', '1', '.'],
                ['.', '3', '.', '9', '.', '.', '8', '.', '7'],
                ['.', '6', '.', '.', '1', '.', '5', '3', '.'],
                ['.', '.', '.', '6', '5', '.', '1', '.', '.'],
                ['9', '.', '.', '8', '3', '.', '.', '.', '.'],
            ],
            PuzzleToSolve::Medium1 => [
                ['.', '7', '.', '.', '.', '.', '9', '.', '.'],
                ['3', '5', '.', '.', '6', '.', '.', '.', '8'],
                ['2', '.', '.', '.', '.', '.', '.', '.', '1'],
                ['4', '.', '9', '.', '2', '.', '8', '.', '.'],
                ['6', '.', '.', '.', '.', '8', '.', '.', '.'],
                ['.', '.', '.', '.', '.', '3', '1', '.', '.'],
                ['.', '.', '.', '1', '.', '.', '7', '.', '.'],
                ['.', '.', '.', '.', '.', '.', '.', '.', '6'],
                ['.', '8', '.', '.', '.', '.', '5', '3', '4'],
            ],
            PuzzleToSolve::Medium2 => [
                ['9', '.', '.', '3', '7', '.', '.', '.', '.'],
                ['.', '.', '3', '1', '.', '.', '.', '4', '.'],
                ['.', '.', '7', '.', '.', '.', '.', '.', '.'],
                ['.', '.', '.', '.', '.', '.', '3', '1', '7'],
                ['.', '8', '.', '.', '.', '.', '9', '.', '.'],
                ['.', '9', '2', '.', '.', '.', '4', '.', '.'],
                ['.', '.', '.', '.', '9', '.', '.', '5', '.'],
                ['5', '6', '.', '.', '.', '2', '.', '.', '.'],
                ['.', '.', '.', '.', '.', '4', '.', '.', '1'],
            ],
            PuzzleToSolve::TopRow => [
                ['1', '2', '3', '4', '5', '6', '7', '8', '9'],
                ['.', '.', '.', '.', '.', '.', '.', '.', '.'],
                ['.', '.', '.', '.', '.', '.', '.', '.', '.'],
                ['.', '.', '.', '.', '.', '.', '.', '.', '.'],
                ['.', '.', '.', '.', '.', '.', '.', '.', '.'],
                ['.', '.', '.', '.', '.', '.', '.', '.', '.'],
                ['.', '.', '.', '.', '.', '.', '.', '.', '.'],
                ['.', '.', '.', '.', '.', '.', '.', '.', '.'],
                ['.', '.', '.', '.', '.', '.', '.', '.', '.'],
            ],
            PuzzleToSolve::Blank => [
                ['.', '.', '.', '.', '.', '.', '.', '.', '.'],
                ['.', '.', '.', '.', '.', '.', '.', '.', '.'],
                ['.', '.', '.', '.', '.', '.', '.', '.', '.'],
                ['.', '.', '.', '.', '.', '.', '.', '.', '.'],
                ['.', '.', '.', '.', '.', '.', '.', '.', '.'],
                ['.', '.', '.', '.', '.', '.', '.', '.', '.'],
                ['.', '.', '.', '.', '.', '.', '.', '.', '.'],
                ['.', '.', '.', '.', '.', '.', '.', '.', '.'],
                ['.', '.', '.', '.', '.', '.', '.', '.', '.'],
            ],
        }
    }

    /// The board of the puzzle.
    pub fn board(self) -> (board: Board)
        ensures
            board@.wf(),
            board@.rows_per_box == 3,
            board@.cols_per_box == 3,
            board@.cells_per_set == 9,
            self is Blank ==> board@ == BoardView::blank(3, 3),
            self is TopRow ==> forall|r: int, c: int|
                0 <= r < 9 && 0 <= c < 9 ==> #[trigger] board@.cell(r, c) == if r == 0 {
                    CellView::single(9, c)
                } else {
                    CellView::blank(9)
                },
    {
        let symbols = self.grid();
        match Board::from_chars(&symbols) {
            Ok(board) => {
                proof {
                    if self is Blank {
                        assert forall|i: int| 0 <= i < 81 implies #[trigger] board@.cells[i]
                            == CellView::blank(9) by {
                            assert(board@.cells[i] == board@.cell(i / 9, i % 9));
                        }
                        assert(board@.cells =~= BoardView::blank(3, 3).cells);
                    }
                }
                board
            },
            Err(e) => {
                // Every symbol of these grids is a blank or a digit.
                proof {
                    assert(symbol_cell(9, symbols[e.row as int][e.col as int]) is Some);
                    assert(false);
                }
                Board::new(3, 3)
            },
        }
    }
}

} // verus!
