//! Where the cells of a region lie on the grid.
//!
//! A grid has `n = rows_per_box * cols_per_box` cells per row. Its cells are
//! numbered row by row, so the cell in row `r` and column `c` has number
//! `r * n + c`.

use vstd::prelude::*;
use vstd::arithmetic::div_mod::{lemma_fundamental_div_mod, lemma_fundamental_div_mod_converse};
use crate::digit_set::DigitSet;

verus! {

/// The number of the cell in row `r` and column `c`.
pub open spec fn flat(n: int, r: int, c: int) -> int {
    r * n + c
}

/// The box that holds the cell in row `r` and column `c`.
pub open spec fn box_of(rows_per_box: int, cols_per_box: int, r: int, c: int) -> int {
    (r / rows_per_box) * rows_per_box + c / cols_per_box
}

/// The place within its box of the cell in row `r` and column `c`.
pub open spec fn place_in_box(rows_per_box: int, cols_per_box: int, r: int, c: int) -> int {
    (r % rows_per_box) * cols_per_box + c % cols_per_box
}

/// Row and column of the `k`-th cell of `set`, on a grid of boxes of
/// `rows_per_box` rows and `cols_per_box` columns.
///
/// A row is walked left to right and a column top to bottom; a box and the
/// whole grid are walked row by row.
pub open spec fn coordinate(set: DigitSet, rows_per_box: int, cols_per_box: int, k: int) -> (
    int,
    int,
) {
    match set {
        DigitSet::Row(_, r) => (r as int, k),
        DigitSet::Col(_, c) => (k, c as int),
        DigitSet::Box(_, b) => (
            (b as int / rows_per_box) * rows_per_box + k / cols_per_box,
            (b as int % rows_per_box) * cols_per_box + k % cols_per_box,
        ),
        DigitSet::All(n) => (k / (n as int), k % (n as int)),
    }
}

/// The number of the `k`-th cell of `set`.
pub open spec fn cell_number(set: DigitSet, rows_per_box: int, cols_per_box: int, k: int) -> int {
    let (r, c) = coordinate(set, rows_per_box, cols_per_box, k);
    flat(set.side() as int, r, c)
}

/// The number of a cell of the grid is below `n * n`, and gives back the
/// row and the column of the cell.
pub proof fn lemma_flat_bounds(n: int, r: int, c: int)
    requires
        0 <= r < n,
        0 <= c < n,
    ensures
        0 <= flat(n, r, c) < n * n,
        flat(n, r, c) / n == r,
        flat(n, r, c) % n == c,
{
    assert(r * n + c < n * n && 0 <= r * n) by (nonlinear_arith)
        requires
            0 <= r < n,
            0 <= c < n,
    ;
    lemma_fundamental_div_mod_converse(flat(n, r, c), n, r, c);
}

/// Two cells of the grid with the same number are the same cell.
pub proof fn lemma_flat_injective(n: int, r1: int, c1: int, r2: int, c2: int)
    requires
        0 <= r1 < n,
        0 <= c1 < n,
        0 <= r2 < n,
        0 <= c2 < n,
        flat(n, r1, c1) == flat(n, r2, c2),
    ensures
        r1 == r2,
        c1 == c2,
{
    lemma_flat_bounds(n, r1, c1);
    lemma_flat_bounds(n, r2, c2);
}

/// Every cell number below `n * n` is the number of a cell of the grid.
pub proof fn lemma_flat_onto(n: int, i: int)
    requires
        0 <= n,
        0 <= i < n * n,
    ensures
        0 <= i / n < n,
        0 <= i % n < n,
        flat(n, i / n, i % n) == i,
{
    assert(n > 0) by (nonlinear_arith)
        requires
            0 <= n,
            0 <= i < n * n,
    ;
    lemma_fundamental_div_mod(i, n);
    let q = i / n;
    assert(0 <= q < n) by (nonlinear_arith)
        requires
            0 <= i < n * n,
            i == n * q + i % n,
            0 <= i % n < n,
    ;
    assert(n * q == q * n) by (nonlinear_arith);
}

/// The cells of a box lie on the grid, in that box, each at its place.
pub proof fn lemma_box_coordinate(rows_per_box: int, cols_per_box: int, b: int, k: int)
    requires
        0 <= rows_per_box,
        0 <= cols_per_box,
        0 <= b < rows_per_box * cols_per_box,
        0 <= k < rows_per_box * cols_per_box,
    ensures
        ({
            let n = rows_per_box * cols_per_box;
            let r = (b / rows_per_box) * rows_per_box + k / cols_per_box;
            let c = (b % rows_per_box) * cols_per_box + k % cols_per_box;
            &&& 0 <= r < n
            &&& 0 <= c < n
            &&& 0 <= b / rows_per_box < cols_per_box
            &&& 0 <= k / cols_per_box < rows_per_box
            &&& box_of(rows_per_box, cols_per_box, r, c) == b
            &&& place_in_box(rows_per_box, cols_per_box, r, c) == k
        }),
{
    let rpb = rows_per_box;
    let cpb = cols_per_box;
    assert(rpb > 0 && cpb > 0) by (nonlinear_arith)
        requires
            0 <= b < rpb * cpb,
            rpb >= 0,
            cpb >= 0,
    ;
    lemma_fundamental_div_mod(b, rpb);
    lemma_fundamental_div_mod(k, cpb);
    let bq = b / rpb;
    let br = b % rpb;
    let kq = k / cpb;
    let kr = k % cpb;
    assert(0 <= bq < cpb) by (nonlinear_arith)
        requires
            0 <= b < rpb * cpb,
            b == rpb * bq + br,
            0 <= br < rpb,
    ;
    assert(0 <= kq < rpb) by (nonlinear_arith)
        requires
            0 <= k < rpb * cpb,
            k == cpb * kq + kr,
            0 <= kr < cpb,
    ;
    let r = bq * rpb + kq;
    let c = br * cpb + kr;
    assert(0 <= r < rpb * cpb) by (nonlinear_arith)
        requires
            r == bq * rpb + kq,
            0 <= bq < cpb,
            0 <= kq < rpb,
    ;
    assert(0 <= c < rpb * cpb) by (nonlinear_arith)
        requires
            c == br * cpb + kr,
            0 <= br < rpb,
            0 <= kr < cpb,
    ;
    lemma_fundamental_div_mod_converse(r, rpb, bq, kq);
    lemma_fundamental_div_mod_converse(c, cpb, br, kr);
    assert(rpb * bq == bq * rpb && cpb * kq == kq * cpb) by (nonlinear_arith);
}

/// Every cell of the grid is the cell at its place in its box.
pub proof fn lemma_box_of(rows_per_box: int, cols_per_box: int, r: int, c: int)
    requires
        0 <= rows_per_box,
        0 <= cols_per_box,
        0 <= r < rows_per_box * cols_per_box,
        0 <= c < rows_per_box * cols_per_box,
    ensures
        ({
            let b = box_of(rows_per_box, cols_per_box, r, c);
            let k = place_in_box(rows_per_box, cols_per_box, r, c);
            &&& 0 <= b < rows_per_box * cols_per_box
            &&& 0 <= k < rows_per_box * cols_per_box
            &&& (b / rows_per_box) * rows_per_box + k / cols_per_box == r
            &&& (b % rows_per_box) * cols_per_box + k % cols_per_box == c
        }),
{
    let rpb = rows_per_box;
    let cpb = cols_per_box;
    assert(rpb > 0 && cpb > 0) by (nonlinear_arith)
        requires
            0 <= r < rpb * cpb,
            rpb >= 0,
            cpb >= 0,
    ;
    lemma_fundamental_div_mod(r, rpb);
    lemma_fundamental_div_mod(c, cpb);
    let rq = r / rpb;
    let rr = r % rpb;
    let cq = c / cpb;
    let cr = c % cpb;
    assert(0 <= rq < cpb) by (nonlinear_arith)
        requires
            0 <= r < rpb * cpb,
            r == rpb * rq + rr,
            0 <= rr < rpb,
    ;
    assert(0 <= cq < rpb) by (nonlinear_arith)
        requires
            0 <= c < rpb * cpb,
            c == cpb * cq + cr,
            0 <= cr < cpb,
    ;
    let b = rq * rpb + cq;
    let k = rr * cpb + cr;
    assert(0 <= b < rpb * cpb) by (nonlinear_arith)
        requires
            b == rq * rpb + cq,
            0 <= rq < cpb,
            0 <= cq < rpb,
    ;
    assert(0 <= k < rpb * cpb) by (nonlinear_arith)
        requires
            k == rr * cpb + cr,
            0 <= rr < rpb,
            0 <= cr < cpb,
    ;
    lemma_fundamental_div_mod_converse(b, rpb, rq, cq);
    lemma_fundamental_div_mod_converse(k, cpb, rr, cr);
    assert(rpb * rq == rq * rpb && cpb * cq == cq * cpb) by (nonlinear_arith);
}

/// The cells of a set lie on the grid.
pub proof fn lemma_coordinate_bounds(set: DigitSet, rows_per_box: int, cols_per_box: int, k: int)
    requires
        rows_per_box >= 0,
        cols_per_box >= 0,
        set.fits((rows_per_box * cols_per_box) as nat),
        0 <= k < set.spec_size(),
    ensures
        ({
            let n = rows_per_box * cols_per_box;
            let (r, c) = coordinate(set, rows_per_box, cols_per_box, k);
            &&& 0 <= r < n
            &&& 0 <= c < n
            &&& 0 <= cell_number(set, rows_per_box, cols_per_box, k) < n * n
            &&& cell_number(set, rows_per_box, cols_per_box, k) == flat(n, r, c)
        }),
{
    let n = rows_per_box * cols_per_box;
    match set {
        DigitSet::Box(_, b) => {
            lemma_box_coordinate(rows_per_box, cols_per_box, b as int, k);
        },
        DigitSet::All(m) => {
            lemma_flat_onto(n, k);
        },
        _ => {},
    }
    let (r, c) = coordinate(set, rows_per_box, cols_per_box, k);
    lemma_flat_bounds(n, r, c);
}

/// No two cells of a set are the same cell.
pub proof fn lemma_cell_number_injective(
    set: DigitSet,
    rows_per_box: int,
    cols_per_box: int,
    k1: int,
    k2: int,
)
    requires
        rows_per_box >= 0,
        cols_per_box >= 0,
        set.fits((rows_per_box * cols_per_box) as nat),
        0 <= k1 < set.spec_size(),
        0 <= k2 < set.spec_size(),
        cell_number(set, rows_per_box, cols_per_box, k1) == cell_number(
            set,
            rows_per_box,
            cols_per_box,
            k2,
        ),
    ensures
        k1 == k2,
{
    let n = rows_per_box * cols_per_box;
    lemma_coordinate_bounds(set, rows_per_box, cols_per_box, k1);
    lemma_coordinate_bounds(set, rows_per_box, cols_per_box, k2);
    let (r1, c1) = coordinate(set, rows_per_box, cols_per_box, k1);
    let (r2, c2) = coordinate(set, rows_per_box, cols_per_box, k2);
    lemma_flat_injective(n, r1, c1, r2, c2);
    match set {
        DigitSet::Box(_, b) => {
            lemma_box_coordinate(rows_per_box, cols_per_box, b as int, k1);
            lemma_box_coordinate(rows_per_box, cols_per_box, b as int, k2);
        },
        DigitSet::All(m) => {
            lemma_flat_onto(n, k1);
            lemma_flat_onto(n, k2);
        },
        _ => {},
    }
}

/// The whole grid is walked in the order of the cell numbers.
pub proof fn lemma_all_cell_number(n: usize, rows_per_box: int, cols_per_box: int, k: int)
    requires
        0 <= k < n * n,
    ensures
        cell_number(DigitSet::All(n), rows_per_box, cols_per_box, k) == k,
{
    lemma_flat_onto(n as int, k);
}

} // verus!
