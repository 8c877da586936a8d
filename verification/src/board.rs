//! The board: a grid of cells, and the operations that read and write it.

use vstd::prelude::*;
use crate::cell::{symbol_digit, Cell, CellView};
use crate::digit_iterator::DigitIterator;
use crate::digit_set::DigitSet;
use crate::geometry::{flat, lemma_flat_bounds, lemma_flat_injective};
use crate::index_iterator::IndexIterator;
use crate::location::Location;
use crate::model::BoardView;

verus! {

/// A symbol of a character grid that is neither the blank `'.'` nor a digit
/// of the grid, and where it stands.
#[derive(Clone, Copy, PartialEq, Eq, Structural, Debug)]
pub struct MalformedInput {
    pub row: usize,
    pub col: usize,
    pub symbol: char,
}

/// What a symbol of a character grid puts into a cell of a grid of `n`
/// digits: `'.'` a blank cell, a digit that the grid has a solved cell, and
/// anything else nothing.
pub open spec fn symbol_cell(n: nat, symbol: char) -> Option<CellView> {
    if symbol == '.' {
        Some(CellView::blank(n))
    } else {
        match symbol_digit(symbol) {
            Some(d) => if d < n {
                Some(CellView::single(n, d))
            } else {
                None
            },
            None => None,
        }
    }
}

/// Represents the state of a Sudoku board in the process of being solved,
/// from the initial given state to a fully solved board.
#[derive(Debug)]
pub struct Board {
    rows_per_box: usize,
    cols_per_box: usize,
    cells_per_set: usize,
    tiles: Vec<Cell>,
}

impl View for Board {
    type V = BoardView;

    closed spec fn view(&self) -> BoardView {
        BoardView {
            rows_per_box: self.rows_per_box as nat,
            cols_per_box: self.cols_per_box as nat,
            cells_per_set: self.cells_per_set as nat,
            cells: self.tiles@.map_values(|cell: Cell| cell@),
        }
    }
}

impl Clone for Board {
    /// An independent copy: what is done to either board later leaves the
    /// other as it is.
    fn clone(&self) -> (res: Self)
        ensures
            res@ == self@,
    {
        let mut tiles: Vec<Cell> = Vec::with_capacity(self.tiles.len());
        let mut i: usize = 0;
        while i < self.tiles.len()
            invariant
                i <= self.tiles.len(),
                tiles.len() == i,
                forall|k: int| 0 <= k < i ==> tiles[k]@ == self.tiles[k]@,
            decreases self.tiles.len() - i,
        {
            tiles.push(self.tiles[i].clone());
            i += 1;
        }
        let res = Board {
            rows_per_box: self.rows_per_box,
            cols_per_box: self.cols_per_box,
            cells_per_set: self.cells_per_set,
            tiles,
        };
        assert(res@.cells =~= self@.cells);
        res
    }
}

impl Default for Board {
    /// The board without cells.
    fn default() -> (res: Self)
        ensures
            res@ == BoardView::blank(0, 0),
            res@.wf(),
    {
        let res = Board { rows_per_box: 0, cols_per_box: 0, cells_per_set: 0, tiles: Vec::new() };
        assert(res@.cells =~= BoardView::blank(0, 0).cells);
        res
    }
}

impl Board {
    /// A blank board whose boxes have `rows_per_box` rows and `cols_per_box`
    /// columns: every cell allows every digit.
    pub fn new(rows_per_box: usize, cols_per_box: usize) -> (board: Self)
        requires
            (rows_per_box * cols_per_box) * (rows_per_box * cols_per_box) <= usize::MAX,
        ensures
            board@ == BoardView::blank(rows_per_box as nat, cols_per_box as nat),
            board@.wf(),
    {
        assert(rows_per_box * cols_per_box <= usize::MAX) by (nonlinear_arith)
            requires
                (rows_per_box * cols_per_box) * (rows_per_box * cols_per_box) <= usize::MAX,
        ;
        let cells_per_set = rows_per_box * cols_per_box;
        let total_num_cells = cells_per_set * cells_per_set;
        let mut tiles: Vec<Cell> = Vec::with_capacity(total_num_cells);
        let mut i: usize = 0;
        while i < total_num_cells
            invariant
                i <= total_num_cells,
                tiles.len() == i,
                forall|k: int| 0 <= k < i ==> tiles[k]@ == CellView::blank(cells_per_set as nat),
            decreases total_num_cells - i,
        {
            tiles.push(Cell::new(cells_per_set));
            i += 1;
        }
        let board = Self { rows_per_box, cols_per_box, cells_per_set, tiles };
        proof {
            assert(board@.cells =~= BoardView::blank(
                rows_per_box as nat,
                cols_per_box as nat,
            ).cells);
            CellView::lemma_blank(cells_per_set as nat);
        }
        board
    }

    /// The board that a 9 by 9 grid of symbols describes: `'.'` is a blank
    /// cell, `'1'` to `'9'` a given digit.
    ///
    /// Fails at the first symbol, row by row, that is neither.
    pub fn from_chars(input: &[[char; 9]; 9]) -> (r: Result<Self, MalformedInput>)
        ensures
            match r {
                Ok(board) => {
                    &&& board@.wf()
                    &&& board@.rows_per_box == 3
                    &&& board@.cols_per_box == 3
                    &&& board@.cells_per_set == 9
                    &&& forall|row: int, col: int|
                        0 <= row < 9 && 0 <= col < 9 ==> symbol_cell(9, input[row][col]) == Some(
                            #[trigger] board@.cell(row, col),
                        )
                },
                Err(e) => {
                    &&& e.row < 9
                    &&& e.col < 9
                    &&& e.symbol == input[e.row as int][e.col as int]
                    &&& symbol_cell(9, e.symbol) is None
                    &&& forall|row: int, col: int|
                        0 <= row < 9 && 0 <= col < 9 && (row < e.row || (row == e.row && col
                            < e.col)) ==> symbol_cell(9, #[trigger] input[row][col]) is Some
                },
            },
    {
        let mut tiles: Vec<Cell> = Vec::with_capacity(81);
        let mut row: usize = 0;
        while row < 9
            invariant
                row <= 9,
                tiles.len() == row * 9,
                forall|i: int|
                    0 <= i < tiles.len() ==> symbol_cell(9, input[i / 9][i % 9]) == Some(
                        (#[trigger] tiles[i])@,
                    ),
            decreases 9 - row,
        {
            let mut col: usize = 0;
            while col < 9
                invariant
                    row < 9,
                    col <= 9,
                    tiles.len() == row * 9 + col,
                    forall|i: int|
                        0 <= i < tiles.len() ==> symbol_cell(9, input[i / 9][i % 9]) == Some(
                            (#[trigger] tiles[i])@,
                        ),
                decreases 9 - col,
            {
                let symbol = input[row][col];
                let ghost before = tiles@;
                if symbol == '.' {
                    tiles.push(Cell::new(9));
                } else {
                    match Cell::new_single_char(9, symbol) {
                        Ok(cell) => {
                            tiles.push(cell);
                        },
                        Err(_) => {
                            proof {
                                assert forall|r: int, c: int|
                                    0 <= r < 9 && 0 <= c < 9 && (r < row || (r == row && c
                                        < col)) implies symbol_cell(
                                    9,
                                    #[trigger] input[r][c],
                                ) is Some by {
                                    let i = r * 9 + c;
                                    assert(i / 9 == r && i % 9 == c);
                                    assert(symbol_cell(9, input[i / 9][i % 9]) == Some(
                                        tiles[i]@,
                                    ));
                                }
                            }
                            return Err(MalformedInput { row, col, symbol });
                        },
                    }
                }
                proof {
                    let i = row * 9 + col;
                    assert(i / 9 == row && i % 9 == col);
                    assert forall|j: int| 0 <= j < tiles.len() implies symbol_cell(
                        9,
                        input[j / 9][j % 9],
                    ) == Some((#[trigger] tiles[j])@) by {
                        if j < i {
                            assert(tiles[j] == before[j]);
                        }
                    }
                }
                col += 1;
            }
            row += 1;
        }
        let board = Self { rows_per_box: 3, cols_per_box: 3, cells_per_set: 9, tiles };
        proof {
            assert forall|i: int| 0 <= i < board@.cells.len() implies (#[trigger] board@.cells[i]).wf(
                9,
            ) by {
                assert(board@.cells[i] == board.tiles[i]@);
                CellView::lemma_blank(9);
                match symbol_digit(input[i / 9][i % 9]) {
                    Some(d) => {
                        if d < 9 {
                            CellView::lemma_single(9, d);
                        }
                    },
                    None => {},
                }
            }
            assert forall|row: int, col: int| 0 <= row < 9 && 0 <= col < 9 implies symbol_cell(
                9,
                input[row][col],
            ) == Some(#[trigger] board@.cell(row, col)) by {
                let i = row * 9 + col;
                assert(i / 9 == row && i % 9 == col);
                assert(board@.cell(row, col) == board.tiles[i]@);
            }
        }
        Ok(board)
    }

    /// The board that a grid of symbols describes, on a grid whose boxes
    /// have `rows_per_box` rows and `cols_per_box` columns: `'.'` is a blank
    /// cell, and `'1'` to `'9'` a given digit, if the grid has that digit.
    /// The grid has as many rows, and every row as many symbols, as the
    /// board has digits.
    ///
    /// Fails at the first symbol, row by row, that is neither.
    pub fn from_symbols(rows_per_box: usize, cols_per_box: usize, input: &Vec<Vec<char>>) -> (r: Result<
        Self,
        MalformedInput,
    >)
        requires
            (rows_per_box * cols_per_box) * (rows_per_box * cols_per_box) <= usize::MAX,
            input.len() == rows_per_box * cols_per_box,
            forall|row: int| 0 <= row < input.len() ==> (#[trigger] input[row]).len() == input.len(),
        ensures
            match r {
                Ok(board) => {
                    &&& board@.wf()
                    &&& board@.rows_per_box == rows_per_box
                    &&& board@.cols_per_box == cols_per_box
                    &&& forall|row: int, col: int|
                        0 <= row < input.len() && 0 <= col < input.len() ==> symbol_cell(
                            input.len() as nat,
                            input[row][col],
                        ) == Some(#[trigger] board@.cell(row, col))
                },
                Err(e) => {
                    &&& e.row < input.len()
                    &&& e.col < input.len()
                    &&& e.symbol == input[e.row as int][e.col as int]
                    &&& symbol_cell(input.len() as nat, e.symbol) is None
                    &&& forall|row: int, col: int|
                        0 <= row < input.len() && 0 <= col < input.len() && (row < e.row || (row
                            == e.row && col < e.col)) ==> symbol_cell(
                            input.len() as nat,
                            #[trigger] input[row][col],
                        ) is Some
                },
            },
    {
        let mut board = Board::new(rows_per_box, cols_per_box);
        let n = board.cells_per_set();
        let ghost blank = CellView::blank(n as nat);
        let mut row: usize = 0;
        proof {
            assert forall|r: int, c: int| 0 <= r < n && 0 <= c < n implies #[trigger] board@.cell(
                r,
                c,
            ) == blank by {
                lemma_flat_bounds(n as int, r, c);
            }
        }
        while row < n
            invariant
                board@.wf(),
                board@.rows_per_box == rows_per_box,
                board@.cols_per_box == cols_per_box,
                board@.cells_per_set == n,
                n == input.len(),
                forall|r: int| 0 <= r < n ==> (#[trigger] input[r]).len() == n,
                blank == CellView::blank(n as nat),
                row <= n,
                forall|r: int, c: int|
                    0 <= r < row && 0 <= c < n ==> symbol_cell(n as nat, input[r][c]) == Some(
                        #[trigger] board@.cell(r, c),
                    ),
                forall|r: int, c: int|
                    row <= r < n && 0 <= c < n ==> #[trigger] board@.cell(r, c) == blank,
            decreases n - row,
        {
            let mut col: usize = 0;
            while col < n
                invariant
                    board@.wf(),
                    board@.rows_per_box == rows_per_box,
                    board@.cols_per_box == cols_per_box,
                    board@.cells_per_set == n,
                    n == input.len(),
                    forall|r: int| 0 <= r < n ==> (#[trigger] input[r]).len() == n,
                    blank == CellView::blank(n as nat),
                    row < n,
                    col <= n,
                    forall|r: int, c: int|
                        0 <= r < n && 0 <= c < n && (r < row || (r == row && c < col))
                            ==> symbol_cell(n as nat, input[r][c]) == Some(
                            #[trigger] board@.cell(r, c),
                        ),
                    forall|r: int, c: int|
                        0 <= r < n && 0 <= c < n && !(r < row || (r == row && c < col))
                            ==> #[trigger] board@.cell(r, c) == blank,
                decreases n - col,
            {
                let symbol = input[row][col];
                if symbol != '.' {
                    match Cell::new_single_char(n, symbol) {
                        Ok(cell) => {
                            let ghost before = board@;
                            board.set(Location::Valid(row, col), cell);
                            proof {
                                let d = symbol_digit(symbol).unwrap();
                                CellView::lemma_single(n as nat, d);
                                lemma_flat_bounds(n as int, row as int, col as int);
                                assert forall|i: int| 0 <= i < board@.cells.len() implies (
                                #[trigger] board@.cells[i]).wf(n as nat) by {
                                    if i != flat(n as int, row as int, col as int) {
                                        assert(board@.cells[i] == before.cells[i]);
                                        assert(before.cells[i].wf(n as nat));
                                    }
                                }
                                assert forall|r: int, c: int|
                                    0 <= r < n && 0 <= c < n && !(r == row && c
                                        == col) implies #[trigger] board@.cell(r, c) == before.cell(
                                    r,
                                    c,
                                ) by {
                                    lemma_flat_bounds(n as int, r, c);
                                    if flat(n as int, r, c) == flat(n as int, row as int, col as int) {
                                        lemma_flat_injective(n as int, r, c, row as int, col as int);
                                    }
                                }
                            }
                        },
                        Err(_) => {
                            proof {
                                assert forall|r: int, c: int|
                                    0 <= r < n && 0 <= c < n && (r < row || (r == row && c
                                        < col)) implies symbol_cell(
                                    n as nat,
                                    #[trigger] input[r][c],
                                ) is Some by {
                                    assert(symbol_cell(n as nat, input[r][c]) == Some(
                                        board@.cell(r, c),
                                    ));
                                }
                            }
                            return Err(MalformedInput { row, col, symbol });
                        },
                    }
                }
                col += 1;
            }
            row += 1;
        }
        Ok(board)
    }

    /// A board has no more cells than can be counted.
    pub proof fn lemma_countable(&self)
        requires
            self@.wf(),
        ensures
            self@.cells_per_set * self@.cells_per_set <= usize::MAX,
            self@.cells_per_set <= usize::MAX,
            self@.rows_per_box <= usize::MAX,
            self@.cols_per_box <= usize::MAX,
    {
        assert(self@.cells.len() == self.tiles.len());
    }

    /// What the board's iterator over the indices of a set hands out at
    /// position `k` is the place of the `k`-th cell of the set.
    pub proof fn lemma_iter(&self, set: DigitSet, k: int)
        requires
            self@.wf(),
            self@.has_set(set),
            0 <= k < set.spec_size(),
        ensures
            self.spec_iter_indices(set).wf(),
            self.spec_iter_indices(set).coordinate(k) matches Location::Valid(r, c) && r
                < self@.cells_per_set && c < self@.cells_per_set && self@.cell(r as int, c as int)
                == self@.at(set, k) && self@.number(set, k) == flat(
                self@.cells_per_set as int,
                r as int,
                c as int,
            ),
            0 <= self@.number(set, k) < self@.cells.len(),
            self@.at(set, k).wf(self@.cells_per_set),
    {
        self.lemma_countable();
        self@.lemma_at(set, k);
    }

    /// The board's iterator over the indices of a set is well-formed.
    pub proof fn lemma_iter_wf(&self, set: DigitSet)
        requires
            self@.wf(),
            self@.has_set(set),
        ensures
            self.spec_iter_indices(set).wf(),
            self.spec_iter_indices(set).rows_per_box == self@.rows_per_box,
            self.spec_iter_indices(set).cols_per_box == self@.cols_per_box,
            set.spec_size() <= usize::MAX,
    {
        self.lemma_countable();
    }

    /// The number of rows of a box.
    pub fn rows_per_box(&self) -> (n: usize)
        ensures
            n == self@.rows_per_box,
    {
        self.rows_per_box
    }

    /// The number of columns of a box.
    pub fn cols_per_box(&self) -> (n: usize)
        ensures
            n == self@.cols_per_box,
    {
        self.cols_per_box
    }

    /// The number of cells per row, column and box, which is the number of
    /// digits.
    pub fn cells_per_set(&self) -> (n: usize)
        ensures
            n == self@.cells_per_set,
    {
        self.cells_per_set
    }

    /// The place among the tiles of the cell in row `r` and column `c`.
    fn tile_index(&self, r: usize, c: usize) -> (i: usize)
        requires
            self@.wf(),
            r < self@.cells_per_set,
            c < self@.cells_per_set,
        ensures
            i == flat(self@.cells_per_set as int, r as int, c as int),
            i < self.tiles.len(),
    {
        proof {
            lemma_flat_bounds(self.cells_per_set as int, r as int, c as int);
            assert(self@.cells.len() == self.tiles.len());
            assert(self.tiles.len() == self.cells_per_set * self.cells_per_set);
        }
        r * self.cells_per_set + c
    }

    /// Returns a reference to a Cell
    pub fn get(&self, location: Location) -> (cell: &Cell)
        requires
            self@.wf(),
            location.in_grid(self@.cells_per_set),
        ensures
            location matches Location::Valid(r, c) && cell@ == self@.cell(r as int, c as int),
            cell@.wf(self@.cells_per_set),
    {
        match location {
            Location::Valid(r, c) => {
                let i = self.tile_index(r, c);
                assert(self@.cells[i as int] == self.tiles[i as int]@);
                &self.tiles[i]
            },
            _ => {
                proof {
                    assert(false);
                }
                &self.tiles[0]
            },
        }
    }

    /// Returns a mutable reference to a Cell
    ///
    /// The board ends up with whatever the caller leaves in the cell, and
    /// is otherwise unchanged.
    pub fn get_mut(&mut self, location: Location) -> (cell: &mut Cell)
        requires
            old(self)@.wf(),
            location.in_grid(old(self)@.cells_per_set),
        ensures
            location matches Location::Valid(r, c) && cell@ == old(self)@.cell(r as int, c as int),
            location matches Location::Valid(r, c) && final(self)@.same_shape(old(self)@),
            location matches Location::Valid(r, c) && final(self)@.cells =~= old(self)@.with_cell(
                r as int,
                c as int,
                final(cell)@,
            ).cells,
    {
        match location {
            Location::Valid(r, c) => {
                let i = self.tile_index(r, c);
                &mut self.tiles[i]
            },
            _ => {
                proof {
                    assert(false);
                }
                &mut self.tiles[0]
            },
        }
    }

    /// Replaces the specified Cell with the input Cell
    pub fn set(&mut self, location: Location, input: Cell)
        requires
            old(self)@.wf(),
            location.in_grid(old(self)@.cells_per_set),
        ensures
            location matches Location::Valid(r, c) && final(self)@ == old(self)@.with_cell(
                r as int,
                c as int,
                input@,
            ),
    {
        match location {
            Location::Valid(r, c) => {
                let i = self.tile_index(r, c);
                self.tiles[i] = input;
                proof {
                    assert(self@.cells =~= old(self)@.with_cell(r as int, c as int, input@).cells);
                }
            },
            _ => {
                proof {
                    assert(false);
                }
            },
        }
    }

    /// Returns a `DigitIterator` over the given set (which returns a type of `&Cell`).
    pub fn iter_digits(&self, set: DigitSet) -> (it: DigitIterator<'_>)
        ensures
            it.board == self,
            it.index_iterator == self.spec_iter_indices(set),
    {
        DigitIterator::new(self, set, self.cells_per_set)
    }

    /// The iterator that `iter_indices` returns.
    pub open spec fn spec_iter_indices(&self, set: DigitSet) -> IndexIterator {
        IndexIterator {
            set,
            rows_per_box: self@.rows_per_box as usize,
            cols_per_box: self@.cols_per_box as usize,
            current: 0,
        }
    }

    /// Returns an `IndexIterator` over the given set (which returns a type of `(usize, usize)`).
    pub fn iter_indices(&self, set: DigitSet) -> (it: IndexIterator)
        ensures
            it == self.spec_iter_indices(set),
    {
        IndexIterator::new(set, self.rows_per_box, self.cols_per_box)
    }
}

} // verus!
