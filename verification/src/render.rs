//! Text for people to read: cells, regions, locations, and the grid with
//! thin lines between the cells of a box and thick lines between boxes.

use vstd::prelude::*;
use vstd::string::StringExecFns;
use crate::board::Board;
use crate::cell::{Cell, CellView};
use crate::digit_set::DigitSet;
use crate::location::Location;
use crate::model::BoardView;

verus! {

/// `c`, `k` times.
pub open spec fn repeated(c: char, k: nat) -> Seq<char> {
    Seq::new(k, |i: int| c)
}

/// The symbol of a decimal digit.
pub open spec fn digit_symbol(d: nat) -> char {
    if d == 0 {
        '0'
    } else if d == 1 {
        '1'
    } else if d == 2 {
        '2'
    } else if d == 3 {
        '3'
    } else if d == 4 {
        '4'
    } else if d == 5 {
        '5'
    } else if d == 6 {
        '6'
    } else if d == 7 {
        '7'
    } else if d == 8 {
        '8'
    } else {
        '9'
    }
}

/// `v` in decimal notation.
pub open spec fn decimal(v: nat) -> Seq<char>
    decreases v,
{
    if v < 10 {
        seq![digit_symbol(v)]
    } else {
        decimal(v / 10).push(digit_symbol(v % 10))
    }
}

/// The least `w` for which ten to the power of `w` is `n` or more: so many
/// columns, and one more, take the numbers up to `n`.
pub open spec fn digit_width(n: nat) -> nat
    decreases n,
{
    if n <= 1 {
        0
    } else {
        1 + digit_width(((n - 1) / 10 + 1) as nat)
    }
}

/// No number from 1 to `n` is longer than `digit_width(n) + 1`.
pub proof fn lemma_decimal_fits(v: nat, n: nat)
    requires
        1 <= v <= n,
    ensures
        1 <= decimal(v).len() <= digit_width(n) + 1,
        digit_width(n) <= n,
    decreases v,
{
    lemma_digit_width_small(n);
    if v >= 10 {
        lemma_decimal_fits(v / 10, ((n - 1) / 10 + 1) as nat);
    }
}

/// The width of the numbers up to `n` is `n` at most.
pub proof fn lemma_digit_width_small(n: nat)
    ensures
        digit_width(n) <= n,
    decreases n,
{
    if n > 1 {
        lemma_digit_width_small(((n - 1) / 10 + 1) as nat);
    }
}

/// The text of a decimal digit.
fn digit_str(d: usize) -> (s: &'static str)
    requires
        d < 10,
    ensures
        s@ == seq![digit_symbol(d as nat)],
{
    proof {
        reveal_strlit("0");
        reveal_strlit("1");
        reveal_strlit("2");
        reveal_strlit("3");
        reveal_strlit("4");
        reveal_strlit("5");
        reveal_strlit("6");
        reveal_strlit("7");
        reveal_strlit("8");
        reveal_strlit("9");
    }
    let s = if d == 0 {
        "0"
    } else if d == 1 {
        "1"
    } else if d == 2 {
        "2"
    } else if d == 3 {
        "3"
    } else if d == 4 {
        "4"
    } else if d == 5 {
        "5"
    } else if d == 6 {
        "6"
    } else if d == 7 {
        "7"
    } else if d == 8 {
        "8"
    } else {
        "9"
    };
    assert(s@ =~= seq![digit_symbol(d as nat)]);
    s
}

/// Appends `v` in decimal notation.
pub fn append_decimal(out: &mut String, v: usize)
    ensures
        final(out)@ == old(out)@ + decimal(v as nat),
    decreases v,
{
    if v >= 10 {
        append_decimal(out, v / 10);
    }
    out.append(digit_str(v % 10));
    assert(out@ =~= old(out)@ + decimal(v as nat));
}

/// The number of symbols of `v` in decimal notation.
pub fn decimal_size(v: usize) -> (size: usize)
    ensures
        size == decimal(v as nat).len(),
        1 <= size <= v + 1,
    decreases v,
{
    if v >= 10 {
        let rest = decimal_size(v / 10);
        rest + 1
    } else {
        1
    }
}

/// Appends the one symbol of `piece`, `k` times.
pub fn append_repeated(out: &mut String, piece: &str, k: usize)
    requires
        piece@.len() == 1,
    ensures
        final(out)@ == old(out)@ + repeated(piece@[0], k as nat),
{
    let mut i: usize = 0;
    assert(out@ =~= old(out)@ + repeated(piece@[0], 0));
    while i < k
        invariant
            i <= k,
            piece@.len() == 1,
            out@ == old(out)@ + repeated(piece@[0], i as nat),
        decreases k - i,
    {
        out.append(piece);
        i += 1;
        assert(out@ =~= old(out)@ + repeated(piece@[0], i as nat));
    }
}

/// The width that `render` gives the numbers of a grid of `n` digits.
pub fn width_of(n: usize) -> (w: usize)
    ensures
        w == digit_width(n as nat),
        w <= n,
{
    let mut w: usize = 0;
    let mut m: usize = n;
    proof {
        lemma_digit_width_small(n as nat);
    }
    while m > 1
        invariant
            w + digit_width(m as nat) == digit_width(n as nat),
            digit_width(n as nat) <= n,
        decreases m,
    {
        m = (m - 1) / 10 + 1;
        w += 1;
    }
    w
}

impl CellView {
    /// The digit that the cell holds, counted from one, or a space.
    pub open spec fn text(self) -> Seq<char> {
        if self.determined() {
            decimal((self.digit() + 1) as nat)
        } else {
            seq![' ']
        }
    }

    /// The cell as a grid of numbers of width `w` shows it: its digit,
    /// counted from one, flush right, with a space on either side; or
    /// spaces alone for a cell that is not down to one digit.
    pub open spec fn padded(self, w: nat) -> Seq<char> {
        if self.determined() {
            let number = decimal((self.digit() + 1) as nat);
            repeated(' ', (w + 1 - number.len()) as nat) + number.push(' ')
        } else {
            repeated(' ', w + 2)
        }
    }
}

impl Cell {
    /// The digit that the cell holds, counted from one, or a space.
    pub fn render(&self) -> (text: String)
        ensures
            text@ == self@.text(),
    {
        let mut text = String::new();
        let size = self.possibilities.len();
        match self.get_single_index() {
            Some(digit_index) => {
                assert(digit_index < size);
                append_decimal(&mut text, digit_index + 1);
                assert(text@ =~= self@.text());
            },
            None => {
                proof {
                    reveal_strlit(" ");
                }
                text.append(" ");
                assert(text@ =~= self@.text());
            },
        }
        text
    }
}

impl DigitSet {
    /// What the set is called: its kind and its number, counted from zero.
    pub open spec fn text(self) -> Seq<char> {
        match self {
            DigitSet::Row(_, r) => "row "@ + decimal(r as nat),
            DigitSet::Col(_, c) => "col "@ + decimal(c as nat),
            DigitSet::Box(_, b) => "box "@ + decimal(b as nat),
            DigitSet::All(_) => "all cells"@,
        }
    }

    /// What the set is called: its kind and its number, counted from zero.
    pub fn render(&self) -> (text: String)
        ensures
            text@ == self.text(),
    {
        match self {
            DigitSet::Row(_, r) => {
                let mut text = String::from_str("row ");
                append_decimal(&mut text, *r);
                text
            },
            DigitSet::Col(_, c) => {
                let mut text = String::from_str("col ");
                append_decimal(&mut text, *c);
                text
            },
            DigitSet::Box(_, b) => {
                let mut text = String::from_str("box ");
                append_decimal(&mut text, *b);
                text
            },
            DigitSet::All(_) => String::from_str("all cells"),
        }
    }
}

impl Location {
    /// Row and column, counted from zero, in brackets; or why there is no
    /// location.
    pub open spec fn text(self) -> Seq<char> {
        match self {
            Location::Valid(r, c) => "("@ + decimal(r as nat) + ", "@ + decimal(c as nat) + ")"@,
            Location::Duplicate => "Duplicate location"@,
            Location::Invalid => "Invalid location"@,
        }
    }

    /// Row and column, counted from zero, in brackets; or why there is no
    /// location.
    pub fn render(&self) -> (text: String)
        ensures
            text@ == self.text(),
    {
        match self {
            Location::Valid(r, c) => {
                let mut text = String::from_str("(");
                append_decimal(&mut text, *r);
                text.append(", ");
                append_decimal(&mut text, *c);
                text.append(")");
                text
            },
            Location::Duplicate => String::from_str("Duplicate location"),
            Location::Invalid => String::from_str("Invalid location"),
        }
    }
}

impl BoardView {
    /// What stands behind column `c` of a line: nothing behind the last
    /// column, `thick` where a box ends, and `thin` elsewhere.
    pub open spec fn joint(self, c: int, thin: char, thick: char) -> Seq<char> {
        if c + 1 >= self.cells_per_set {
            Seq::empty()
        } else if (c + 1) % (self.cols_per_box as int) == 0 {
            seq![thick]
        } else {
            seq![thin]
        }
    }

    /// The first `cols` columns of a line without cells: `fill` across
    /// every column, and its joint behind it.
    pub open spec fn rule_upto(self, cols: nat, fill: char, thin: char, thick: char) -> Seq<char>
        decreases cols,
    {
        if cols == 0 {
            Seq::empty()
        } else {
            self.rule_upto((cols - 1) as nat, fill, thin, thick) + repeated(
                fill,
                digit_width(self.cells_per_set) + 2,
            ) + self.joint(cols - 1, thin, thick)
        }
    }

    /// A line without cells.
    pub open spec fn rule(self, fill: char, thin: char, thick: char) -> Seq<char> {
        self.rule_upto(self.cells_per_set, fill, thin, thick)
    }

    /// The first `cols` cells of row `r`, each with the line behind it.
    pub open spec fn row_upto(self, r: int, cols: nat) -> Seq<char>
        decreases cols,
    {
        if cols == 0 {
            Seq::empty()
        } else {
            self.row_upto(r, (cols - 1) as nat) + self.cell(r, cols - 1).padded(
                digit_width(self.cells_per_set),
            ) + self.joint(cols - 1, '│', '┃')
        }
    }

    /// The line under row `r`: none under the last row, a thick one where
    /// a box ends, and a thin one elsewhere.
    pub open spec fn divider(self, r: int) -> Seq<char> {
        if r + 1 >= self.cells_per_set {
            Seq::empty()
        } else if (r + 1) % (self.rows_per_box as int) == 0 {
            self.rule('━', '┿', '╋').push('\n')
        } else {
            self.rule('─', '┼', '╂').push('\n')
        }
    }

    /// The first `rows` rows, each with the line under it.
    pub open spec fn rows_upto(self, rows: nat) -> Seq<char>
        decreases rows,
    {
        if rows == 0 {
            Seq::empty()
        } else {
            self.rows_upto((rows - 1) as nat) + self.row_upto(
                rows - 1,
                self.cells_per_set,
            ).push('\n') + self.divider(rows - 1)
        }
    }

    /// The grid as text: a line of ticks that mark the columns, the rows
    /// with the lines between them, and a line of ticks again. Every line
    /// ends with a line break.
    pub open spec fn text(self) -> Seq<char> {
        self.rule(' ', '╷', '╻').push('\n') + self.rows_upto(self.cells_per_set) + self.rule(
            ' ',
            '╵',
            '╹',
        ).push('\n')
    }
}

impl Board {
    /// Appends what stands behind column `c` of a line.
    fn append_joint(&self, out: &mut String, c: usize, thin: &str, thick: &str)
        requires
            self@.wf(),
            c < self@.cells_per_set,
            thin@.len() == 1,
            thick@.len() == 1,
        ensures
            final(out)@ == old(out)@ + self@.joint(c as int, thin@[0], thick@[0]),
    {
        proof {
            self.lemma_countable();
            assert(self@.cols_per_box > 0) by (nonlinear_arith)
                requires
                    self@.cells_per_set == self@.rows_per_box * self@.cols_per_box,
                    self@.cells_per_set > 0,
            ;
        }
        if c + 1 >= self.cells_per_set() {
            assert(out@ =~= old(out)@ + self@.joint(c as int, thin@[0], thick@[0]));
        } else if (c + 1) % self.cols_per_box() == 0 {
            out.append(thick);
            assert(out@ =~= old(out)@ + self@.joint(c as int, thin@[0], thick@[0]));
        } else {
            out.append(thin);
            assert(out@ =~= old(out)@ + self@.joint(c as int, thin@[0], thick@[0]));
        }
    }

    /// A line without cells.
    fn rule_line(&self, fill: &str, thin: &str, thick: &str) -> (line: String)
        requires
            self@.wf(),
            fill@.len() == 1,
            thin@.len() == 1,
            thick@.len() == 1,
        ensures
            line@ == self@.rule(fill@[0], thin@[0], thick@[0]),
    {
        let n = self.cells_per_set();
        let width = width_of(n);
        proof {
            self@.lemma_side();
        }
        let mut line = String::new();
        let mut col: usize = 0;
        assert(line@ =~= self@.rule_upto(0, fill@[0], thin@[0], thick@[0]));
        while col < n
            invariant
                self@.wf(),
                n == self@.cells_per_set,
                width == digit_width(n as nat),
                width <= n,
                3 * n <= usize::MAX,
                col <= n,
                fill@.len() == 1,
                thin@.len() == 1,
                thick@.len() == 1,
                line@ == self@.rule_upto(col as nat, fill@[0], thin@[0], thick@[0]),
            decreases n - col,
        {
            append_repeated(&mut line, fill, width + 2);
            self.append_joint(&mut line, col, thin, thick);
            col += 1;
        }
        line
    }

    /// Appends the cell in row `r` and column `c` as a grid of numbers of
    /// width `width` shows it.
    fn append_padded(&self, out: &mut String, r: usize, c: usize, width: usize)
        requires
            self@.wf(),
            r < self@.cells_per_set,
            c < self@.cells_per_set,
            width == digit_width(self@.cells_per_set),
        ensures
            final(out)@ == old(out)@ + self@.cell(r as int, c as int).padded(width as nat),
    {
        let n = self.cells_per_set();
        proof {
            self@.lemma_side();
            lemma_digit_width_small(n as nat);
            reveal_strlit(" ");
        }
        let digit = self.get(Location::Valid(r, c)).get_single_index();
        match digit {
            Some(digit) => {
                let number = digit + 1;
                proof {
                    lemma_decimal_fits(number as nat, n as nat);
                }
                let current_digit_size = decimal_size(number);
                append_repeated(out, " ", width + 1 - current_digit_size);
                append_decimal(out, number);
                out.append(" ");
                assert(out@ =~= old(out)@ + self@.cell(r as int, c as int).padded(width as nat));
            },
            None => {
                append_repeated(out, " ", width + 2);
            },
        }
    }

    /// The grid as text, with thin lines between the cells of a box and
    /// thick lines between boxes. A cell that is down to one digit shows
    /// it, counted from one; any other cell is left empty.
    pub fn render(&self) -> (text: String)
        requires
            self@.wf(),
        ensures
            text@ == self@.text(),
    {
        proof {
            reveal_strlit(" ");
            reveal_strlit("\n");
            reveal_strlit("╷");
            reveal_strlit("╻");
            reveal_strlit("╵");
            reveal_strlit("╹");
            reveal_strlit("─");
            reveal_strlit("┼");
            reveal_strlit("╂");
            reveal_strlit("━");
            reveal_strlit("┿");
            reveal_strlit("╋");
            reveal_strlit("│");
            reveal_strlit("┃");
            self.lemma_countable();
        }
        let n = self.cells_per_set();
        let width = width_of(n);
        let top_row = self.rule_line(" ", "╷", "╻");
        let bottom_row = self.rule_line(" ", "╵", "╹");
        let thin_row_divider = self.rule_line("─", "┼", "╂");
        let thick_row_divider = self.rule_line("━", "┿", "╋");
        let mut rows = String::new();
        let mut r: usize = 0;
        assert(rows@ =~= self@.rows_upto(0));
        while r < n
            invariant
                self@.wf(),
                n == self@.cells_per_set,
                width == digit_width(n as nat),
                r <= n,
                "\n"@ == seq!['\n'],
                "│"@ == seq!['│'],
                "┃"@ == seq!['┃'],
                thin_row_divider@ == self@.rule('─', '┼', '╂'),
                thick_row_divider@ == self@.rule('━', '┿', '╋'),
                rows@ == self@.rows_upto(r as nat),
            decreases n - r,
        {
            let mut row = String::new();
            let mut c: usize = 0;
            assert(row@ =~= self@.row_upto(r as int, 0));
            while c < n
                invariant
                    self@.wf(),
                    n == self@.cells_per_set,
                    width == digit_width(n as nat),
                    r < n,
                    c <= n,
                    "│"@ == seq!['│'],
                    "┃"@ == seq!['┃'],
                    row@ == self@.row_upto(r as int, c as nat),
                decreases n - c,
            {
                self.append_padded(&mut row, r, c, width);
                self.append_joint(&mut row, c, "│", "┃");
                c += 1;
            }
            row.append("\n");
            let ghost before = rows@;
            rows.append(row.as_str());
            proof {
                assert(self@.rows_per_box > 0) by (nonlinear_arith)
                    requires
                        self@.cells_per_set == self@.rows_per_box * self@.cols_per_box,
                        self@.cells_per_set > 0,
                ;
            }
            if r + 1 >= n {
            } else if (r + 1) % self.rows_per_box() == 0 {
                rows.append(thick_row_divider.as_str());
                rows.append("\n");
            } else {
                rows.append(thin_row_divider.as_str());
                rows.append("\n");
            }
            assert(rows@ =~= before + self@.row_upto(r as int, n as nat).push('\n') + self@.divider(
                r as int,
            ));
            r += 1;
        }
        let mut text = top_row;
        text.append("\n");
        text.append(rows.as_str());
        text.append(bottom_row.as_str());
        text.append("\n");
        assert(text@ =~= self@.text());
        text
    }
}

} // verus!
