//! A completion that every blank board has: the first row counts the digits
//! up, and every other row is the first one shifted.

use vstd::prelude::*;
use vstd::arithmetic::div_mod::{lemma_fundamental_div_mod, lemma_fundamental_div_mod_converse,
    lemma_mod_bound};
use crate::cell::CellView;
use crate::digit_set::DigitSet;
use crate::geometry::{coordinate, lemma_coordinate_bounds, lemma_flat_bounds, lemma_flat_onto};
use crate::model::BoardView;

verus! {

/// How far row `r` is shifted against the first row: the rows of one box
/// are `cols_per_box` apart, and row `i` of the next box is one further
/// than row `i` of this one.
pub open spec fn row_shift(rows_per_box: int, cols_per_box: int, r: int) -> int {
    (r % rows_per_box) * cols_per_box + r / rows_per_box
}

/// The digit of the shifted pattern in row `r` and column `c`.
pub open spec fn pattern_digit(rows_per_box: int, cols_per_box: int, r: int, c: int) -> int {
    (row_shift(rows_per_box, cols_per_box, r) + c) % (rows_per_box * cols_per_box)
}

/// The shifted pattern on a grid of the given box shape, row by row.
pub open spec fn pattern(rows_per_box: nat, cols_per_box: nat) -> Seq<int> {
    let n = rows_per_box * cols_per_box;
    Seq::new(
        n * n,
        |i: int| pattern_digit(rows_per_box as int, cols_per_box as int, i / (n as int), i % (n as int)),
    )
}

/// Counting on from a common start keeps different numbers below `n`
/// different modulo `n`.
pub proof fn lemma_shifted_apart(n: int, s: int, a: int, b: int)
    requires
        0 <= a < n,
        0 <= b < n,
        a != b,
    ensures
        (s + a) % n != (s + b) % n,
{
    lemma_fundamental_div_mod(s + a, n);
    lemma_fundamental_div_mod(s + b, n);
    let qa = (s + a) / n;
    let qb = (s + b) / n;
    if (s + a) % n == (s + b) % n {
        assert(a - b == n * (qa - qb)) by (nonlinear_arith)
            requires
                s + a == n * qa + (s + a) % n,
                s + b == n * qb + (s + b) % n,
                (s + a) % n == (s + b) % n,
        ;
        assert(false) by (nonlinear_arith)
            requires
                a - b == n * (qa - qb),
                -n < a - b < n,
                a != b,
        ;
    }
}

/// The shifts of the rows are below `n`, and no two rows have the same.
pub proof fn lemma_row_shift(rows_per_box: int, cols_per_box: int, r1: int, r2: int)
    requires
        0 <= rows_per_box,
        0 <= cols_per_box,
        0 <= r1 < rows_per_box * cols_per_box,
        0 <= r2 < rows_per_box * cols_per_box,
        r1 != r2,
    ensures
        0 <= row_shift(rows_per_box, cols_per_box, r1) < rows_per_box * cols_per_box,
        row_shift(rows_per_box, cols_per_box, r1) != row_shift(rows_per_box, cols_per_box, r2),
{
    let rpb = rows_per_box;
    let cpb = cols_per_box;
    assert(rpb > 0 && cpb > 0) by (nonlinear_arith)
        requires
            0 <= r1 < rpb * cpb,
            rpb >= 0,
            cpb >= 0,
    ;
    lemma_fundamental_div_mod(r1, rpb);
    lemma_fundamental_div_mod(r2, rpb);
    let q1 = r1 / rpb;
    let m1 = r1 % rpb;
    let q2 = r2 / rpb;
    let m2 = r2 % rpb;
    assert(0 <= q1 < cpb) by (nonlinear_arith)
        requires
            0 <= r1 < rpb * cpb,
            r1 == rpb * q1 + m1,
            0 <= m1 < rpb,
    ;
    assert(0 <= q2 < cpb) by (nonlinear_arith)
        requires
            0 <= r2 < rpb * cpb,
            r2 == rpb * q2 + m2,
            0 <= m2 < rpb,
    ;
    let s1 = m1 * cpb + q1;
    let s2 = m2 * cpb + q2;
    assert(0 <= s1 < rpb * cpb) by (nonlinear_arith)
        requires
            s1 == m1 * cpb + q1,
            0 <= m1 < rpb,
            0 <= q1 < cpb,
    ;
    lemma_fundamental_div_mod_converse(s1, cpb, m1, q1);
    lemma_fundamental_div_mod_converse(s2, cpb, m2, q2);
}

/// The digit of the shifted pattern in the `k`-th cell of a box is `k`
/// counted on from where the box begins.
pub proof fn lemma_box_digit(rows_per_box: int, cols_per_box: int, b: int, k: int)
    requires
        0 <= rows_per_box,
        0 <= cols_per_box,
        0 <= b < rows_per_box * cols_per_box,
        0 <= k < rows_per_box * cols_per_box,
    ensures
        ({
            let r = (b / rows_per_box) * rows_per_box + k / cols_per_box;
            let c = (b % rows_per_box) * cols_per_box + k % cols_per_box;
            pattern_digit(rows_per_box, cols_per_box, r, c) == (b / rows_per_box + (b
                % rows_per_box) * cols_per_box + k) % (rows_per_box * cols_per_box)
        }),
{
    let rpb = rows_per_box;
    let cpb = cols_per_box;
    assert(rpb > 0 && cpb > 0) by (nonlinear_arith)
        requires
            0 <= b < rpb * cpb,
            rpb >= 0,
            cpb >= 0,
    ;
    lemma_fundamental_div_mod(b, rpb);
    lemma_fundamental_div_mod(k, cpb);
    let bq = b / rpb;
    let br = b % rpb;
    let kq = k / cpb;
    let kr = k % cpb;
    assert(0 <= kq < rpb) by (nonlinear_arith)
        requires
            0 <= k < rpb * cpb,
            k == cpb * kq + kr,
            0 <= kr < cpb,
    ;
    assert(0 <= bq) by (nonlinear_arith)
        requires
            0 <= b,
            b == rpb * bq + br,
            0 <= br < rpb,
    ;
    let r = bq * rpb + kq;
    lemma_fundamental_div_mod_converse(r, rpb, bq, kq);
    assert(kq * cpb == cpb * kq) by (nonlinear_arith);
}

impl BoardView {
    /// The shifted pattern is a valid grid, and so a completion of the
    /// blank board.
    pub proof fn lemma_blank_solvable(rows_per_box: nat, cols_per_box: nat)
        requires
            (rows_per_box * cols_per_box) * (rows_per_box * cols_per_box) <= usize::MAX,
        ensures
            Self::blank(rows_per_box, cols_per_box).wf(),
            Self::blank(rows_per_box, cols_per_box).completed_by(pattern(rows_per_box, cols_per_box)),
            Self::blank(rows_per_box, cols_per_box).solvable(),
    {
        let rpb = rows_per_box as int;
        let cpb = cols_per_box as int;
        let n = rows_per_box * cols_per_box;
        let board = Self::blank(rows_per_box, cols_per_box);
        let g = pattern(rows_per_box, cols_per_box);
        CellView::lemma_blank(n);
        assert(board.wf());
        assert forall|i: int| 0 <= i < g.len() implies 0 <= #[trigger] g[i] < n by {
            lemma_flat_onto(n as int, i);
            lemma_mod_bound(row_shift(rpb, cpb, i / (n as int)) + i % (n as int), n as int);
        }
        assert forall|set: DigitSet, k1: int, k2: int|
            board.has_region(set) && 0 <= k1 < k2 < n implies g[#[trigger] board.number(set, k1)]
            != g[#[trigger] board.number(set, k2)] by {
            lemma_coordinate_bounds(set, rpb, cpb, k1);
            lemma_coordinate_bounds(set, rpb, cpb, k2);
            let (r1, c1) = coordinate(set, rpb, cpb, k1);
            let (r2, c2) = coordinate(set, rpb, cpb, k2);
            lemma_flat_bounds(n as int, r1, c1);
            lemma_flat_bounds(n as int, r2, c2);
            assert(g[board.number(set, k1)] == pattern_digit(rpb, cpb, r1, c1));
            assert(g[board.number(set, k2)] == pattern_digit(rpb, cpb, r2, c2));
            match set {
                DigitSet::Row(_, r) => {
                    lemma_shifted_apart(n as int, row_shift(rpb, cpb, r as int), k1, k2);
                },
                DigitSet::Col(_, c) => {
                    lemma_row_shift(rpb, cpb, k1, k2);
                    lemma_row_shift(rpb, cpb, k2, k1);
                    lemma_shifted_apart(
                        n as int,
                        c as int,
                        row_shift(rpb, cpb, k1),
                        row_shift(rpb, cpb, k2),
                    );
                },
                DigitSet::Box(_, b) => {
                    lemma_box_digit(rpb, cpb, b as int, k1);
                    lemma_box_digit(rpb, cpb, b as int, k2);
                    lemma_shifted_apart(
                        n as int,
                        b as int / rpb + (b as int % rpb) * cpb,
                        k1,
                        k2,
                    );
                },
                DigitSet::All(_) => {},
            }
        }
        assert(board.valid_grid(g));
        assert(board.admits(g));
        assert(board.completed_by(g));
    }
}

} // verus!
