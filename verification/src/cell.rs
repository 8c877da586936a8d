//! One square of the grid: the digits it may still hold.

use vstd::prelude::*;
use crate::counting::{count_true, first_true, lemma_count_full, lemma_count_one,
    lemma_count_one_at, lemma_count_prefix_step, lemma_first_true};

verus! {

/// The mathematical content of a [`Cell`].
pub struct CellView {
    /// `possibilities[d]` says that digit `d` (counted from zero) is still
    /// allowed here.
    pub possibilities: Seq<bool>,
    /// The cached flag "exactly one digit is left".
    pub solved: bool,
}

impl CellView {
    /// How many digits are still allowed.
    pub open spec fn count(self) -> nat {
        count_true(self.possibilities)
    }

    /// Whether digit `d` is still allowed.
    pub open spec fn allows(self, d: int) -> bool {
        0 <= d < self.possibilities.len() && self.possibilities[d]
    }

    /// The lowest digit still allowed. For a cell with one digit left this is
    /// the digit it holds.
    pub open spec fn digit(self) -> int {
        first_true(self.possibilities)
    }

    /// Exactly one digit is left.
    pub open spec fn determined(self) -> bool {
        self.count() == 1
    }

    /// A cell over `n` digits whose flag agrees with its possibilities.
    pub open spec fn wf(self, n: nat) -> bool {
        &&& self.possibilities.len() == n
        &&& self.solved == self.determined()
    }

    /// The cell that allows every one of `n` digits.
    pub open spec fn blank(n: nat) -> CellView {
        CellView { possibilities: Seq::new(n, |i: int| true), solved: n == 1 }
    }

    /// The cell over `n` digits that holds digit `d`.
    pub open spec fn single(n: nat, d: int) -> CellView {
        CellView { possibilities: Seq::new(n, |i: int| i == d), solved: true }
    }

    /// This cell without the digits that `used` marks, if more than one digit
    /// is left to it; a cell with one digit left stays as it is.
    pub open spec fn without(self, used: Seq<bool>) -> CellView {
        if self.determined() {
            self
        } else {
            let possibilities = Seq::new(
                self.possibilities.len(),
                |d: int| self.possibilities[d] && !used[d],
            );
            CellView { possibilities, solved: count_true(possibilities) == 1 }
        }
    }

    /// This cell allows nothing that `other` forbids.
    pub open spec fn within(self, other: CellView) -> bool {
        crate::counting::flags_within(self.possibilities, other.possibilities)
    }

    /// The blank cell is well-formed and allows every digit.
    pub proof fn lemma_blank(n: nat)
        ensures
            Self::blank(n).wf(n),
            Self::blank(n).count() == n,
            forall|d: int| 0 <= d < n ==> Self::blank(n).allows(d),
    {
        lemma_count_full(Self::blank(n).possibilities);
    }

    /// The cell that holds digit `d` is well-formed and allows `d` alone.
    pub proof fn lemma_single(n: nat, d: int)
        requires
            0 <= d < n,
        ensures
            Self::single(n, d).wf(n),
            Self::single(n, d).count() == 1,
            Self::single(n, d).digit() == d,
            forall|e: int| Self::single(n, d).allows(e) <==> e == d,
    {
        lemma_count_one_at(Self::single(n, d).possibilities, d);
    }

    /// A cell with one digit left allows its digit and no other.
    pub proof fn lemma_determined(self)
        requires
            self.determined(),
        ensures
            self.allows(self.digit()),
            forall|e: int| self.allows(e) ==> e == self.digit(),
    {
        lemma_count_one(self.possibilities);
    }
}

/// The digit, counted from zero, that a symbol of a character grid stands
/// for: `'1'` is digit 0 and `'9'` is digit 8. No other symbol is a digit.
pub open spec fn symbol_digit(symbol: char) -> Option<int> {
    if '1' <= symbol <= '9' {
        Some(symbol as int - '1' as int)
    } else {
        None
    }
}

/// A symbol that stands for no digit of the grid it was given for.
#[derive(Clone, Copy, PartialEq, Eq, Structural, Debug)]
pub struct InvalidSymbol {
    pub symbol: char,
}

/// Represents a cell in the Sudoku, storing a list of the digits the cell could be.
#[derive(PartialEq, Eq, Debug)]
pub struct Cell {
    pub possibilities: Vec<bool>,
    pub solved: bool,
}

impl View for Cell {
    type V = CellView;

    open spec fn view(&self) -> CellView {
        CellView { possibilities: self.possibilities@, solved: self.solved }
    }
}

impl Clone for Cell {
    /// A copy with its own possibilities.
    fn clone(&self) -> (res: Self)
        ensures
            res@ == self@,
    {
        let possibilities = self.possibilities.clone();
        assert(possibilities@ =~= self.possibilities@);
        Cell { possibilities, solved: self.solved }
    }
}

impl Cell {
    /// Creates a Cell that could be any digit.
    pub fn new(size: usize) -> (cell: Self)
        ensures
            cell@ == CellView::blank(size as nat),
    {
        let mut possibilities: Vec<bool> = Vec::with_capacity(size);
        let mut i: usize = 0;
        while i < size
            invariant
                i <= size,
                possibilities@ =~= Seq::new(i as nat, |k: int| true),
            decreases size - i,
        {
            possibilities.push(true);
            i += 1;
        }
        Self { possibilities, solved: size == 1 }
    }

    /// Creates a solved Cell with the given digit.
    pub fn new_single_digit(size: usize, input: usize) -> (cell: Self)
        requires
            input < size,
        ensures
            cell@ == CellView::single(size as nat, input as int),
    {
        let mut possibilities: Vec<bool> = Vec::with_capacity(size);
        let mut i: usize = 0;
        while i < size
            invariant
                i <= size,
                possibilities@ =~= Seq::new(i as nat, |k: int| k == input),
            decreases size - i,
        {
            possibilities.push(i == input);
            i += 1;
        }
        assert(possibilities@ =~= CellView::single(size as nat, input as int).possibilities);
        Self { possibilities, solved: true }
    }

    /// Creates a solved Cell with the given char converted to a digit.
    ///
    /// Fails on a symbol that is no digit, and on a digit that a grid of
    /// `size` digits does not have.
    pub fn new_single_char(size: usize, input: char) -> (r: Result<Self, InvalidSymbol>)
        ensures
            match r {
                Ok(cell) => symbol_digit(input) matches Some(d) && d < size && cell@
                    == CellView::single(size as nat, d),
                Err(e) => e.symbol == input && !(symbol_digit(input) matches Some(d) && d < size),
            },
    {
        if '1' <= input && input <= '9' {
            let digit: usize = (input as u32 - '1' as u32) as usize;
            if digit < size {
                return Ok(Self::new_single_digit(size, digit));
            }
        }
        Err(InvalidSymbol { symbol: input })
    }

    /// Returns the only possible digit if it exists, or `None` if it doesn't.
    pub fn get_single_index(&self) -> (r: Option<usize>)
        ensures
            r is Some <==> self@.determined(),
            r matches Some(d) ==> d == self@.digit() && self@.allows(d as int),
    {
        let mut output: Option<usize> = None;
        let mut i: usize = 0;
        let ghost s = self.possibilities@;
        while i < self.possibilities.len()
            invariant
                i <= s.len(),
                s == self.possibilities@,
                output is None <==> count_true(s.take(i as int)) == 0,
                output is Some ==> count_true(s.take(i as int)) == 1,
                output matches Some(d) ==> d < i && s[d as int] && d == first_true(
                    s.take(i as int),
                ),
            decreases s.len() - i,
        {
            proof {
                lemma_count_prefix_step(s, i as int);
                lemma_first_true(s.take(i as int));
                lemma_first_true(s.take(i + 1));
                crate::counting::lemma_count_zero(s.take(i as int));
                assert(s.take(i + 1).drop_last() =~= s.take(i as int));
            }
            if self.possibilities[i] {
                if output.is_none() {
                    output = Some(i);
                } else {
                    proof {
                        lemma_count_at_least(s, i + 1);
                    }
                    return None;
                }
            }
            i += 1;
        }
        proof {
            assert(s.take(i as int) =~= s);
            if output is Some {
                lemma_count_one(s);
            }
        }
        output
    }

    /// Returns true iff the digit wasn't solved but is now solved.
    ///
    /// The flag is recomputed from the possibilities, which stay as they are.
    pub fn check_newly_solved(&mut self) -> (newly: bool)
        ensures
            final(self)@.possibilities == old(self)@.possibilities,
            final(self)@.solved == old(self)@.determined(),
            newly == (!old(self)@.solved && old(self)@.determined()),
    {
        let was_solved = self.solved;
        let solved = self.get_single_index().is_some();
        self.solved = solved;
        !was_solved && solved
    }

    /// Forbids every digit that `allowed` does not mark. The flag is left as
    /// it is: `check_newly_solved` brings it up to date.
    pub fn retain(&mut self, allowed: &Vec<bool>)
        requires
            allowed.len() == old(self).possibilities.len(),
        ensures
            final(self).solved == old(self).solved,
            final(self)@.possibilities == Seq::new(
                old(self)@.possibilities.len(),
                |d: int| old(self)@.possibilities[d] && allowed[d],
            ),
    {
        let mut d: usize = 0;
        let n = self.possibilities.len();
        let ghost start = self.possibilities@;
        while d < n
            invariant
                d <= n,
                n == self.possibilities@.len(),
                n == allowed@.len(),
                self.solved == old(self).solved,
                start == old(self).possibilities@,
                n == start.len(),
                forall|e: int|
                    0 <= e < d ==> #[trigger] self.possibilities@[e] == (start[e] && allowed@[e]),
                forall|e: int| d <= e < n ==> #[trigger] self.possibilities@[e] == start[e],
            decreases n - d,
        {
            let keep = self.possibilities[d] && allowed[d];
            self.possibilities.set(d, keep);
            d += 1;
        }
        assert(self@.possibilities =~= Seq::new(
            old(self)@.possibilities.len(),
            |d: int| old(self)@.possibilities[d] && allowed[d],
        ));
    }

    /// Returns the number of possibilities for this cell.
    pub fn num_possibilities(&self) -> (n: usize)
        ensures
            n == self@.count(),
    {
        let mut output: usize = 0;
        let mut i: usize = 0;
        let ghost s = self.possibilities@;
        while i < self.possibilities.len()
            invariant
                i <= s.len(),
                s == self.possibilities@,
                output == count_true(s.take(i as int)),
                output <= i,
            decreases s.len() - i,
        {
            proof {
                lemma_count_prefix_step(s, i as int);
            }
            if self.possibilities[i] {
                output += 1;
            }
            i += 1;
        }
        proof {
            assert(s.take(i as int) =~= s);
        }
        output
    }

    /// Returns the lowest digit that is still possible, or `None` if no digit is.
    pub fn first_possibility(&self) -> (r: Option<usize>)
        ensures
            match r {
                Some(d) => d == self@.digit() && self@.allows(d as int),
                None => self@.count() == 0,
            },
    {
        let mut i: usize = 0;
        let ghost s = self.possibilities@;
        proof {
            lemma_first_true(s);
        }
        while i < self.possibilities.len()
            invariant
                i <= s.len(),
                s == self.possibilities@,
                forall|k: int| 0 <= k < i ==> !s[k],
                0 <= first_true(s) <= s.len(),
                first_true(s) < s.len() ==> s[first_true(s)],
                forall|k: int| 0 <= k < first_true(s) ==> !s[k],
            decreases s.len() - i,
        {
            if self.possibilities[i] {
                return Some(i);
            }
            i += 1;
        }
        proof {
            crate::counting::lemma_count_zero(s);
        }
        None
    }
}

/// A prefix counts no more than the whole.
pub proof fn lemma_count_at_least(s: Seq<bool>, k: int)
    requires
        0 <= k <= s.len(),
    ensures
        count_true(s.take(k)) <= count_true(s),
    decreases s.len() - k,
{
    if k < s.len() {
        lemma_count_prefix_step(s, k);
        lemma_count_at_least(s, k + 1);
    } else {
        assert(s.take(k) =~= s);
    }
}

} // verus!
