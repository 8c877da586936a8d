//! The fused reduction loop: one sweep over the cells and one scan per
//! digit in every round, in place of a pass per region.

use vstd::prelude::*;
use crate::board::Board;
use crate::cell::{Cell, CellView};
use crate::digit_set::DigitSet;
use crate::geometry::{box_of, flat, lemma_box_of, lemma_flat_bounds, place_in_box};
use crate::index_iterator::IndexIterator;
use crate::location::Location;
use crate::model::BoardView;

verus! {

/// The `j`-th region of a kind: a row where `kind` is 0, a column where it
/// is 1, and a box where it is anything else.
pub open spec fn region_of(kind: int, n: usize, j: int) -> DigitSet {
    if kind == 0 {
        DigitSet::Row(n, j as usize)
    } else if kind == 1 {
        DigitSet::Col(n, j as usize)
    } else {
        DigitSet::Box(n, j as usize)
    }
}

/// Whether `flags` marks digit `d` for region `j`.
pub open spec fn flag_at(flags: Seq<Vec<bool>>, j: int, d: int) -> bool {
    flags[j]@[d]
}

impl BoardView {
    /// Every digit that `flags` marks for a region of the kind is held by a
    /// solved cell of that region.
    pub open spec fn marks_sound(self, flags: Seq<Vec<bool>>, kind: int) -> bool {
        &&& flags.len() == self.cells_per_set
        &&& forall|j: int| 0 <= j < flags.len() ==> (#[trigger] flags[j]).len() == self.cells_per_set
        &&& forall|j: int, d: int|
            0 <= j < self.cells_per_set && 0 <= d < self.cells_per_set && #[trigger] flag_at(
                flags,
                j,
                d,
            ) ==> self.used(region_of(kind, self.cells_per_set as usize, j), d)
    }

    /// `flags` marks for every region of the kind the digits that its
    /// solved cells hold, and no others.
    pub open spec fn marks_exact(self, flags: Seq<Vec<bool>>, kind: int) -> bool {
        &&& self.marks_sound(flags, kind)
        &&& forall|j: int, d: int|
            0 <= j < self.cells_per_set && 0 <= d < self.cells_per_set && self.used(
                region_of(kind, self.cells_per_set as usize, j),
                d,
            ) ==> #[trigger] flag_at(flags, j, d)
    }

    /// The cell in row `r` and column `c` is a cell of its row, of its
    /// column and of its box.
    pub proof fn lemma_cell_regions(self, r: int, c: int)
        requires
            self.wf(),
            0 <= r < self.cells_per_set,
            0 <= c < self.cells_per_set,
        ensures
            ({
                let n = self.cells_per_set as usize;
                let i = flat(n as int, r, c);
                let b = box_of(self.rows_per_box as int, self.cols_per_box as int, r, c);
                let p = place_in_box(self.rows_per_box as int, self.cols_per_box as int, r, c);
                &&& 0 <= i < self.cells.len()
                &&& 0 <= b < n
                &&& 0 <= p < n
                &&& self.has_region(DigitSet::Row(n, r as usize))
                &&& self.has_region(DigitSet::Col(n, c as usize))
                &&& self.has_region(DigitSet::Box(n, b as usize))
                &&& self.number(DigitSet::Row(n, r as usize), c) == i
                &&& self.number(DigitSet::Col(n, c as usize), r) == i
                &&& self.number(DigitSet::Box(n, b as usize), p) == i
            }),
    {
        self.lemma_side();
        lemma_flat_bounds(self.cells_per_set as int, r, c);
        lemma_box_of(self.rows_per_box as int, self.cols_per_box as int, r, c);
    }

    /// A digit that a solved cell of a region holds is excluded from the
    /// other cells of the region.
    pub proof fn lemma_used_excludes(self, set: DigitSet, k: int, e: int)
        requires
            self.wf(),
            self.has_region(set),
            0 <= k < self.cells_per_set,
            !self.at(set, k).determined(),
            self.used(set, e),
        ensures
            self.excluded(self.number(set, k), e),
    {
        let j = choose|j: int|
            0 <= j < self.cells_per_set && (#[trigger] self.at(set, j)).determined() && self.at(
                set,
                j,
            ).digit() == e;
        assert(self.has_region(set) && self.number(set, k) == self.number(set, k) && self.at(
            set,
            j,
        ).determined());
    }

    /// What a solved cell holds stays used.
    pub proof fn lemma_used_kept(self, new: BoardView, set: DigitSet, d: int)
        requires
            self.wf(),
            self.has_region(set),
            new.same_shape(self),
            new.keeps_solved(self),
            self.used(set, d),
        ensures
            new.used(set, d),
    {
        let j = choose|j: int|
            0 <= j < self.cells_per_set && (#[trigger] self.at(set, j)).determined() && self.at(
                set,
                j,
            ).digit() == d;
        self.lemma_at(set, j);
        assert(self.cells[self.number(set, j)].solved);
        assert(new.at(set, j) == self.at(set, j));
    }

    /// Marks stay sound under propagation.
    pub proof fn lemma_marks_kept(self, new: BoardView, flags: Seq<Vec<bool>>, kind: int)
        requires
            self.wf(),
            new.same_shape(self),
            new.keeps_solved(self),
            self.marks_sound(flags, kind),
            0 <= kind <= 2,
        ensures
            new.marks_sound(flags, kind),
    {
        self.lemma_side();
        let n = self.cells_per_set;
        assert forall|j: int, d: int|
            0 <= j < n && 0 <= d < n && #[trigger] flag_at(flags, j, d) implies new.used(
            region_of(kind, n as usize, j),
            d,
        ) by {
            assert(self.used(region_of(kind, n as usize, j), d));
            self.lemma_used_kept(new, region_of(kind, n as usize, j), d);
        }
    }

    /// A board that has lost, in one unsolved cell, only digits that were
    /// excluded is what propagation may make of the board.
    pub proof fn lemma_strike(self, i: int, cell: CellView)
        requires
            self.wf(),
            0 <= i < self.cells.len(),
            !self.cells[i].solved,
            cell.wf(self.cells_per_set),
            cell.within(self.cells[i]),
            forall|e: int|
                self.cells[i].allows(e) && !cell.allows(e) ==> #[trigger] self.excluded(i, e),
        ensures
            self.with_tile(i, cell).propagated_from(self),
    {
        let new = self.with_tile(i, cell);
        assert forall|x: int| 0 <= x < self.cells.len() implies {
            &&& (#[trigger] new.cells[x]).wf(self.cells_per_set)
            &&& new.cells[x].within(self.cells[x])
        } by {
            if x != i {
                assert(new.cells[x] == self.cells[x]);
                assert(self.cells[x].wf(self.cells_per_set));
            }
        }
        assert forall|x: int, e: int|
            0 <= x < self.cells.len() && (#[trigger] self.cells[x]).allows(e) && !new.cells[x].allows(
                e,
            ) implies #[trigger] self.excluded(x, e) by {
            if x != i {
                assert(new.cells[x] == self.cells[x]);
            }
        }
        new.lemma_exclusion_keeps_completions(self);
    }
}

/// Whether `flags` marks digit `d` for region `j`.
fn marked(flags: &Vec<Vec<bool>>, j: usize, d: usize) -> (r: bool)
    requires
        j < flags.len(),
        d < flags[j as int].len(),
    ensures
        r == flag_at(flags@, j as int, d as int),
{
    flags[j][d]
}

/// Marks digit `d` for region `j`.
fn mark(flags: &mut Vec<Vec<bool>>, j: usize, d: usize)
    requires
        j < old(flags).len(),
        d < old(flags)[j as int].len(),
    ensures
        final(flags).len() == old(flags).len(),
        forall|x: int| 0 <= x < old(flags).len() ==> (#[trigger] final(flags)[x]).len() == old(
            flags,
        )[x].len(),
        flag_at(final(flags)@, j as int, d as int),
        forall|x: int, e: int|
            0 <= x < old(flags).len() && 0 <= e < old(flags)[x].len() && !(x == j && e == d)
                ==> #[trigger] flag_at(final(flags)@, x, e) == flag_at(old(flags)@, x, e),
{
    let mut row: Vec<bool> = Vec::with_capacity(flags[j].len());
    let mut e: usize = 0;
    while e < flags[j].len()
        invariant
            j < flags.len(),
            e <= flags[j as int].len(),
            row.len() == e,
            forall|x: int| 0 <= x < e ==> row[x] == (x == d || flags[j as int][x]),
        decreases flags[j as int].len() - e,
    {
        row.push(e == d || flags[j][e]);
        e += 1;
    }
    flags.set(j, row);
}

impl Board {
    /// For every region of a kind (rows where `kind` is 0, columns where it
    /// is 1, boxes where it is 2), the digits that its solved cells hold.
    pub fn used_digits(&self, kind: usize) -> (flags: Vec<Vec<bool>>)
        requires
            self@.wf(),
            kind <= 2,
        ensures
            self@.marks_exact(flags@, kind as int),
    {
        let n = self.cells_per_set();
        let mut flags: Vec<Vec<bool>> = Vec::with_capacity(n);
        let mut j: usize = 0;
        proof {
            self@.lemma_side();
        }
        while j < n
            invariant
                self@.wf(),
                n == self@.cells_per_set,
                kind <= 2,
                j <= n,
                flags.len() == j,
                forall|x: int| 0 <= x < j ==> (#[trigger] flags[x]).len() == n,
                forall|x: int, d: int|
                    0 <= x < j && 0 <= d < n ==> #[trigger] flag_at(flags@, x, d) == self@.used(
                        region_of(kind as int, n, x),
                        d,
                    ),
            decreases n - j,
        {
            let set = if kind == 0 {
                DigitSet::Row(n, j)
            } else if kind == 1 {
                DigitSet::Col(n, j)
            } else {
                DigitSet::Box(n, j)
            };
            assert(set == region_of(kind as int, n, j as int));
            let used = self.region_used(set);
            let ghost before = flags@;
            flags.push(used);
            proof {
                assert forall|x: int, d: int| 0 <= x < j + 1 && 0 <= d < n implies #[trigger] flag_at(
                    flags@,
                    x,
                    d,
                ) == self@.used(region_of(kind as int, n, x), d) by {
                    if x < j {
                        assert(flags@[x] == before[x]);
                        assert(flag_at(before, x, d) == self@.used(
                            region_of(kind as int, n, x),
                            d,
                        ));
                    }
                }
            }
            j += 1;
        }
        flags
    }

    /// The digits that the solved cells of a region hold.
    pub fn region_used(&self, set: DigitSet) -> (used: Vec<bool>)
        requires
            self@.wf(),
            self@.has_region(set),
        ensures
            used.len() == self@.cells_per_set,
            forall|d: int| 0 <= d < used.len() ==> used[d] == self@.used(set, d),
    {
        let n = self.cells_per_set();
        let mut used = crate::checks::cleared_flags(n);
        let mut indices = self.iter_indices(set);
        proof {
            self.lemma_iter_wf(set);
        }
        loop
            invariant
                self@.wf(),
                self@.has_region(set),
                n == self@.cells_per_set,
                indices.wf(),
                indices == (IndexIterator { current: indices.current, ..self.spec_iter_indices(set) }),
                indices.current <= n,
                used.len() == n,
                forall|d: int|
                    0 <= d < n ==> used[d] == self@.used_before(set, indices.current as int, d),
            ensures
                indices.current == n,
            decreases n - indices.current,
        {
            let ghost k = indices.current as int;
            match indices.next() {
                None => {
                    break ;
                },
                Some(location) => {
                    proof {
                        self.lemma_iter(set, k);
                    }
                    let cell = self.get(location);
                    if let Some(digit) = cell.get_single_index() {
                        used.set(digit, true);
                    }
                    proof {
                        assert forall|d: int| 0 <= d < n implies used[d] == self@.used_before(
                            set,
                            k + 1,
                            d,
                        ) by {
                            if self@.used_before(set, k, d) {
                                let j = choose|j: int|
                                    0 <= j < k && (#[trigger] self@.at(set, j)).determined()
                                        && self@.at(set, j).digit() == d;
                                assert(self@.at(set, j).determined());
                            }
                        }
                    }
                },
            }
        }
        proof {
            assert forall|d: int| 0 <= d < n implies used[d] == self@.used(set, d) by {
                if self@.used(set, d) {
                    let j = choose|j: int|
                        0 <= j < n && (#[trigger] self@.at(set, j)).determined() && self@.at(
                            set,
                            j,
                        ).digit() == d;
                    assert(self@.at(set, j).determined());
                }
                if self@.used_before(set, n as int, d) {
                    let j = choose|j: int|
                        0 <= j < n && (#[trigger] self@.at(set, j)).determined() && self@.at(
                            set,
                            j,
                        ).digit() == d;
                    assert(self@.at(set, j).determined());
                }
            }
        }
        used
    }

    /// The box that holds the cell in row `r` and column `c`.
    pub fn box_index(&self, r: usize, c: usize) -> (b: usize)
        requires
            self@.wf(),
            r < self@.cells_per_set,
            c < self@.cells_per_set,
        ensures
            b == box_of(self@.rows_per_box as int, self@.cols_per_box as int, r as int, c as int),
            b < self@.cells_per_set,
    {
        proof {
            self.lemma_countable();
            lemma_box_of(self@.rows_per_box as int, self@.cols_per_box as int, r as int, c as int);
            lemma_box_index_fits(
                self@.rows_per_box as int,
                self@.cols_per_box as int,
                r as int,
                c as int,
            );
        }
        let rows_per_box = self.rows_per_box();
        let cols_per_box = self.cols_per_box();
        rows_per_box * (r / rows_per_box) + c / cols_per_box
    }
}

/// The parts of a box index are small.
pub proof fn lemma_box_index_fits(rows_per_box: int, cols_per_box: int, r: int, c: int)
    requires
        0 <= rows_per_box,
        0 <= cols_per_box,
        0 <= r < rows_per_box * cols_per_box,
        0 <= c < rows_per_box * cols_per_box,
    ensures
        rows_per_box > 0,
        cols_per_box > 0,
        0 <= rows_per_box * (r / rows_per_box) <= r,
        rows_per_box * (r / rows_per_box) == (r / rows_per_box) * rows_per_box,
{
    assert(rows_per_box > 0 && cols_per_box > 0) by (nonlinear_arith)
        requires
            0 <= r < rows_per_box * cols_per_box,
            rows_per_box >= 0,
            cols_per_box >= 0,
    ;
    vstd::arithmetic::div_mod::lemma_fundamental_div_mod(r, rows_per_box);
    assert(rows_per_box * (r / rows_per_box) == (r / rows_per_box) * rows_per_box)
        by (nonlinear_arith);
}

impl BoardView {
    /// The cell numbered `x` allows a digit, and if it is unsolved, none
    /// that a solved cell of its row, its column or its box holds.
    pub open spec fn cell_clean(self, x: int) -> bool {
        let n = self.cells_per_set as usize;
        let r = x / (n as int);
        let c = x % (n as int);
        let b = box_of(self.rows_per_box as int, self.cols_per_box as int, r, c);
        &&& self.cells[x].count() > 0
        &&& !self.cells[x].determined() ==> forall|d: int|
            #![trigger self.cells[x].allows(d)]
            self.cells[x].allows(d) ==> !self.used(DigitSet::Row(n, r as usize), d) && !self.used(
                DigitSet::Col(n, c as usize),
                d,
            ) && !self.used(DigitSet::Box(n, b as usize), d)
    }

    /// A board whose cells are all clean has every region reduced.
    pub proof fn lemma_clean_reduced(self, set: DigitSet)
        requires
            self.wf(),
            self.has_region(set),
            forall|x: int| 0 <= x < self.cells.len() ==> #[trigger] self.cell_clean(x),
        ensures
            self.region_reduced(set),
    {
        let n = self.cells_per_set;
        self.lemma_side();
        assert forall|k: int| 0 <= k < n implies {
            let cell = #[trigger] self.at(set, k);
            &&& cell.count() > 0
            &&& !cell.determined() ==> forall|d: int|
                #![trigger self.used(set, d)]
                cell.allows(d) ==> !self.used(set, d)
        } by {
            self.lemma_at(set, k);
            let x = self.number(set, k);
            let (r, c) = crate::geometry::coordinate(
                set,
                self.rows_per_box as int,
                self.cols_per_box as int,
                k,
            );
            lemma_flat_bounds(n as int, r, c);
            assert(self.cell_clean(x));
            assert(x / (n as int) == r && x % (n as int) == c);
            match set {
                DigitSet::Box(_, b) => {
                    crate::geometry::lemma_box_coordinate(
                        self.rows_per_box as int,
                        self.cols_per_box as int,
                        b as int,
                        k,
                    );
                },
                _ => {},
            }
            let cell = self.at(set, k);
            if !cell.determined() {
                assert forall|d: int| cell.allows(d) implies !self.used(set, d) by {
                    assert(self.cells[x].allows(d));
                }
            }
        }
    }

    /// A digit that a solved cell of a region holds is settled there.
    pub proof fn lemma_used_settled(self, set: DigitSet, d: int)
        requires
            self.wf(),
            self.has_region(set),
            self.used(set, d),
        ensures
            self.digit_settled(set, d),
    {
        let j = choose|j: int|
            0 <= j < self.cells_per_set && (#[trigger] self.at(set, j)).determined() && self.at(
                set,
                j,
            ).digit() == d;
        self.at(set, j).lemma_determined();
        assert(self.at(set, j).allows(d));
        assert forall|k: int| self.only_home(set, d, k) implies (#[trigger] self.at(
            set,
            k,
        )).determined() by {
            if k != j {
                assert(!self.at(set, j).allows(d));
            }
        }
    }

    /// Every region is a region of a kind.
    pub proof fn lemma_region_of(self, set: DigitSet)
        requires
            self.wf(),
            self.has_region(set),
        ensures
            exists|kind: int, j: int|
                0 <= kind <= 2 && 0 <= j < self.cells_per_set && #[trigger] region_of(
                    kind,
                    self.cells_per_set as usize,
                    j,
                ) == set,
    {
        self.lemma_side();
        let n = self.cells_per_set as usize;
        match set {
            DigitSet::Row(_, j) => {
                assert(region_of(0, n, j as int) == set);
            },
            DigitSet::Col(_, j) => {
                assert(region_of(1, n, j as int) == set);
            },
            DigitSet::Box(_, j) => {
                assert(region_of(2, n, j as int) == set);
            },
            DigitSet::All(_) => {},
        }
    }

    /// The digit `d` is settled in every region that a scan in the order
    /// digit, kind, region has passed when it stands at `(digit, kind, j)`.
    pub open spec fn settled_before(self, digit: int, kind: int, j: int) -> bool {
        forall|d: int, k: int, x: int|
            0 <= d < self.cells_per_set && 0 <= k <= 2 && 0 <= x < self.cells_per_set && (d < digit
                || (d == digit && (k < kind || (k == kind && x < j)))) ==> #[trigger] self.digit_settled(
                region_of(k, self.cells_per_set as usize, x),
                d,
            )
    }
}

impl Board {
    /// The sweep: every unsolved cell loses the digits marked for its row,
    /// its column or its box; the digit of a cell that becomes solved is
    /// marked at once.
    ///
    /// `None` says that a cell was left with no digit. Otherwise the result
    /// says whether a cell has lost a digit.
    fn strike_used(
        &mut self,
        rows: &mut Vec<Vec<bool>>,
        cols: &mut Vec<Vec<bool>>,
        boxes: &mut Vec<Vec<bool>>,
    ) -> (r: Option<bool>)
        requires
            old(self)@.wf(),
            old(self)@.marks_exact(old(rows)@, 0),
            old(self)@.marks_exact(old(cols)@, 1),
            old(self)@.marks_exact(old(boxes)@, 2),
        ensures
            final(self)@.propagated_from(old(self)@),
            final(self)@.marks_sound(final(rows)@, 0),
            final(self)@.marks_sound(final(cols)@, 1),
            final(self)@.marks_sound(final(boxes)@, 2),
            r is None ==> !final(self)@.solvable() && final(self)@.dead(),
            r == Some(true) ==> final(self)@.total() < old(self)@.total(),
            r == Some(false) ==> final(self)@ == old(self)@ && forall|set: DigitSet|
                #[trigger] old(self)@.has_region(set) ==> old(self)@.region_reduced(set),
            old(self)@.stable() ==> r == Some(false),
    {
        let n = self.cells_per_set();
        let ghost start = self@;
        let ghost rows0 = rows@;
        let ghost cols0 = cols@;
        let ghost boxes0 = boxes@;
        let all = DigitSet::All(n);
        let mut changed = false;
        let mut indices = self.iter_indices(all);
        proof {
            self.lemma_iter_wf(all);
            start.lemma_propagated_self();
            start.lemma_side();
        }
        let ghost total = start.cells.len();
        loop
            invariant
                start == old(self)@,
                start.wf(),
                start.marks_exact(rows0, 0),
                start.marks_exact(cols0, 1),
                start.marks_exact(boxes0, 2),
                n == start.cells_per_set,
                all == DigitSet::All(n),
                total == start.cells.len(),
                self@.propagated_from(start),
                self@.same_shape(start),
                self@.marks_sound(rows@, 0),
                self@.marks_sound(cols@, 1),
                self@.marks_sound(boxes@, 2),
                indices.wf(),
                indices == (IndexIterator { current: indices.current, ..self.spec_iter_indices(all) }),
                indices.current <= total,
                changed ==> self@.total() < start.total(),
                !changed ==> self@ == start && rows@ == rows0 && cols@ == cols0 && boxes@ == boxes0
                    && forall|x: int| 0 <= x < indices.current ==> #[trigger] start.cell_clean(x),
                start.stable() ==> !changed,
            ensures
                indices.current == total,
            decreases total - indices.current,
        {
            let ghost k = indices.current as int;
            let ghost current = self@;
            match indices.next() {
                None => {
                    break ;
                },
                Some(location) => {
                    proof {
                        self.lemma_iter(all, k);
                        crate::geometry::lemma_all_cell_number(
                            n,
                            current.rows_per_box as int,
                            current.cols_per_box as int,
                            k,
                        );
                    }
                    if let Location::Valid(row, col) = location {
                        proof {
                            current.lemma_cell_regions(row as int, col as int);
                            lemma_flat_bounds(n as int, row as int, col as int);
                            assert(k == flat(n as int, row as int, col as int));
                            assert(k / (n as int) == row && k % (n as int) == col);
                        }
                        if !self.get(location).solved {
                            let box_index = self.box_index(row, col);
                            let ghost place = place_in_box(
                                current.rows_per_box as int,
                                current.cols_per_box as int,
                                row as int,
                                col as int,
                            );
                            let mut allowed: Vec<bool> = Vec::with_capacity(n);
                            let mut digit: usize = 0;
                            while digit < n
                                invariant
                                    digit <= n,
                                    allowed.len() == digit,
                                    rows.len() == n,
                                    cols.len() == n,
                                    boxes.len() == n,
                                    row < n,
                                    col < n,
                                    box_index < n,
                                    rows[row as int].len() == n,
                                    cols[col as int].len() == n,
                                    boxes[box_index as int].len() == n,
                                    forall|d: int|
                                        0 <= d < digit ==> allowed[d] == !(flag_at(
                                            rows@,
                                            row as int,
                                            d,
                                        ) || flag_at(cols@, col as int, d) || flag_at(
                                            boxes@,
                                            box_index as int,
                                            d,
                                        )),
                                decreases n - digit,
                            {
                                let used = marked(rows, row, digit) || marked(cols, col, digit)
                                    || marked(boxes, box_index, digit);
                                allowed.push(!used);
                                digit += 1;
                            }
                            let ghost old_cell = current.cells[k];
                            let before_count = self.get(location).num_possibilities();
                            let cell = self.get_mut(location);
                            cell.retain(&allowed);
                            let after_count = cell.num_possibilities();
                            let newly_solved = cell.check_newly_solved();
                            let value = cell.get_single_index();
                            let ghost new_cell = cell@;
                            proof {
                                assert(self@ == current.with_tile(k, new_cell)) by {
                                    assert(self@.cells =~= current.with_tile(k, new_cell).cells);
                                }
                                assert(new_cell.within(old_cell));
                                assert forall|e: int|
                                    old_cell.allows(e) && !new_cell.allows(
                                        e,
                                    ) implies #[trigger] current.excluded(k, e) by {
                                    assert(!allowed[e]);
                                    if flag_at(rows@, row as int, e) {
                                        assert(current.used(region_of(0, n, row as int), e));
                                        current.lemma_used_excludes(
                                            DigitSet::Row(n, row),
                                            col as int,
                                            e,
                                        );
                                    } else if flag_at(cols@, col as int, e) {
                                        assert(current.used(region_of(1, n, col as int), e));
                                        current.lemma_used_excludes(
                                            DigitSet::Col(n, col),
                                            row as int,
                                            e,
                                        );
                                    } else {
                                        assert(flag_at(boxes@, box_index as int, e));
                                        assert(current.used(region_of(2, n, box_index as int), e));
                                        current.lemma_used_excludes(
                                            DigitSet::Box(n, box_index),
                                            place,
                                            e,
                                        );
                                    }
                                }
                                current.lemma_strike(k, new_cell);
                                self@.lemma_propagated_twice(current, start);
                                self@.lemma_total_within(current);
                                current.lemma_marks_kept(self@, rows@, 0);
                                current.lemma_marks_kept(self@, cols@, 1);
                                current.lemma_marks_kept(self@, boxes@, 2);
                                crate::counting::lemma_count_within(
                                    new_cell.possibilities,
                                    old_cell.possibilities,
                                );
                            }
                            if after_count == 0 {
                                proof {
                                    self@.lemma_dead_cell(k);
                                    assert(self@.cells[k].count() == 0);
                                    assert(self@.dead());
                                    if start.stable() {
                                        start.lemma_stable_clean(k);
                                        assert(current == start);
                                        assert forall|d: int|
                                            0 <= d < n implies new_cell.possibilities[d]
                                            == old_cell.possibilities[d] by {
                                            if old_cell.allows(d) {
                                                assert(start.cells[k].allows(d));
                                                assert(region_of(0, n, row as int)
                                                    == DigitSet::Row(n, row));
                                                assert(region_of(1, n, col as int)
                                                    == DigitSet::Col(n, col));
                                                assert(region_of(2, n, box_index as int)
                                                    == DigitSet::Box(n, box_index));
                                                assert(!flag_at(rows0, row as int, d));
                                                assert(!flag_at(cols0, col as int, d));
                                                assert(!flag_at(boxes0, box_index as int, d));
                                                assert(allowed[d]);
                                            }
                                        }
                                        assert(new_cell.possibilities =~= old_cell.possibilities);
                                    }
                                }
                                return None;
                            }
                            if after_count < before_count {
                                proof {
                                    crate::completions::lemma_total_count_strict(
                                        self@.cells,
                                        current.cells,
                                        k,
                                    );
                                    if start.stable() {
                                        start.lemma_stable_clean(k);
                                        assert(current == start);
                                        assert forall|d: int|
                                            0 <= d < n implies new_cell.possibilities[d]
                                            == old_cell.possibilities[d] by {
                                            if old_cell.allows(d) {
                                                assert(start.cells[k].allows(d));
                                                assert(region_of(0, n, row as int)
                                                    == DigitSet::Row(n, row));
                                                assert(region_of(1, n, col as int)
                                                    == DigitSet::Col(n, col));
                                                assert(region_of(2, n, box_index as int)
                                                    == DigitSet::Box(n, box_index));
                                                assert(!flag_at(rows0, row as int, d));
                                                assert(!flag_at(cols0, col as int, d));
                                                assert(!flag_at(boxes0, box_index as int, d));
                                                assert(allowed[d]);
                                            }
                                        }
                                        assert(new_cell.possibilities =~= old_cell.possibilities);
                                    }
                                }
                                changed = true;
                            } else {
                                proof {
                                    crate::counting::lemma_count_within_equal(
                                        new_cell.possibilities,
                                        old_cell.possibilities,
                                    );
                                    assert(new_cell == old_cell);
                                    assert(self@.cells =~= current.cells);
                                    assert(self@ == current);
                                    if !changed {
                                        assert(start.cell_clean(k)) by {
                                            assert forall|d: int|
                                                #![trigger start.cells[k].allows(d)]
                                                start.cells[k].allows(d) implies !start.used(
                                                DigitSet::Row(n, row),
                                                d,
                                            ) && !start.used(DigitSet::Col(n, col), d)
                                                && !start.used(
                                                DigitSet::Box(n, box_index),
                                                d,
                                            ) by {
                                                assert(new_cell.allows(d));
                                                assert(allowed[d]);
                                                assert(region_of(0, n, row as int)
                                                    == DigitSet::Row(n, row));
                                                assert(region_of(1, n, col as int)
                                                    == DigitSet::Col(n, col));
                                                assert(region_of(2, n, box_index as int)
                                                    == DigitSet::Box(n, box_index));
                                            }
                                        }
                                    }
                                }
                            }
                            if newly_solved {
                                if let Some(value) = value {
                                    mark(rows, row, value);
                                    mark(cols, col, value);
                                    mark(boxes, box_index, value);
                                    proof {
                                        let here = self@;
                                        here.lemma_cell_regions(row as int, col as int);
                                        assert(here.at(DigitSet::Row(n, row), col as int)
                                            == new_cell);
                                        assert(here.at(DigitSet::Col(n, col), row as int)
                                            == new_cell);
                                        assert(here.at(DigitSet::Box(n, box_index), place)
                                            == new_cell);
                                        assert(here.used(region_of(0, n, row as int), value as int));
                                        assert(here.used(region_of(1, n, col as int), value as int));
                                        assert(here.used(
                                            region_of(2, n, box_index as int),
                                            value as int,
                                        ));
                                    }
                                }
                            }
                        } else {
                            proof {
                                if !changed {
                                    assert(start.cells[k].wf(n as nat));
                                    assert(start.cell_clean(k));
                                }
                            }
                        }
                    }
                },
            }
        }
        proof {
            if !changed {
                assert forall|set: DigitSet| #[trigger]
                    start.has_region(set) implies start.region_reduced(set) by {
                    start.lemma_clean_reduced(set);
                }
            }
        }
        Some(changed)
    }
}

impl BoardView {
    /// The cells of a stable board are clean.
    pub proof fn lemma_stable_clean(self, x: int)
        requires
            self.wf(),
            self.stable(),
            0 <= x < self.cells.len(),
        ensures
            self.cell_clean(x),
    {
        let n = self.cells_per_set as usize;
        self.lemma_side();
        crate::geometry::lemma_flat_onto(n as int, x);
        let r = x / (n as int);
        let c = x % (n as int);
        self.lemma_cell_regions(r, c);
        let b = box_of(self.rows_per_box as int, self.cols_per_box as int, r, c);
        let p = place_in_box(self.rows_per_box as int, self.cols_per_box as int, r, c);
        let row = DigitSet::Row(n, r as usize);
        let col = DigitSet::Col(n, c as usize);
        let bx = DigitSet::Box(n, b as usize);
        assert(self.region_reduced(row) && self.region_reduced(col) && self.region_reduced(bx));
        assert(self.at(row, c) == self.cells[x]);
        assert(self.at(col, r) == self.cells[x]);
        assert(self.at(bx, p) == self.cells[x]);
    }
}

impl Board {
    /// The scan for hidden singles: digit by digit, every row, column and
    /// box in which the digit is not marked is searched for the only cell
    /// that allows the digit; the digit is placed there and marked.
    ///
    /// `None` says that a digit has no home in some region. Otherwise the
    /// result says whether a digit was placed.
    fn place_singles(
        &mut self,
        rows: &mut Vec<Vec<bool>>,
        cols: &mut Vec<Vec<bool>>,
        boxes: &mut Vec<Vec<bool>>,
    ) -> (r: Option<bool>)
        requires
            old(self)@.wf(),
            old(self)@.marks_sound(old(rows)@, 0),
            old(self)@.marks_sound(old(cols)@, 1),
            old(self)@.marks_sound(old(boxes)@, 2),
        ensures
            final(self)@.propagated_from(old(self)@),
            r is None ==> !final(self)@.solvable() && final(self)@.dead(),
            r == Some(true) ==> final(self)@.total() < old(self)@.total(),
            r == Some(false) ==> final(self)@ == old(self)@ && forall|set: DigitSet|
                #[trigger] old(self)@.has_region(set) ==> old(self)@.region_singles_placed(set),
            old(self)@.stable() ==> r == Some(false),
    {
        let n = self.cells_per_set();
        let ghost start = self@;
        let mut placed = false;
        let mut needed_digit: usize = 0;
        let mut kind: usize = 0;
        let mut j: usize = 0;
        proof {
            start.lemma_propagated_self();
            start.lemma_side();
        }
        while needed_digit < n
            invariant
                start == old(self)@,
                start.wf(),
                n == start.cells_per_set,
                self@.propagated_from(start),
                self@.same_shape(start),
                self@.marks_sound(rows@, 0),
                self@.marks_sound(cols@, 1),
                self@.marks_sound(boxes@, 2),
                needed_digit <= n,
                kind <= 2,
                j < n || (n == 0 && j == 0),
                placed ==> self@.total() < start.total(),
                !placed ==> self@ == start && start.settled_before(
                    needed_digit as int,
                    kind as int,
                    j as int,
                ),
                start.stable() ==> !placed,
            decreases n - needed_digit, 2 - kind, n - j,
        {
            let ghost current = self@;
            let set = if kind == 0 {
                DigitSet::Row(n, j)
            } else if kind == 1 {
                DigitSet::Col(n, j)
            } else {
                DigitSet::Box(n, j)
            };
            assert(set == region_of(kind as int, n, j as int));
            let is_marked = if kind == 0 {
                marked(rows, j, needed_digit)
            } else if kind == 1 {
                marked(cols, j, needed_digit)
            } else {
                marked(boxes, j, needed_digit)
            };
            if is_marked {
                proof {
                    current.lemma_used_settled(set, needed_digit as int);
                }
            } else {
                let location = self.find_single_location(set, needed_digit);
                match location {
                    Location::Invalid => {
                        proof {
                            current.lemma_dead_digit(set, needed_digit as int);
                            assert(current.homeless(set, needed_digit as int));
                            assert(current.dead());
                            if start.stable() {
                                assert(start.has_region(set));
                                assert(start.region_singles_placed(set));
                                assert(start.digit_settled(set, needed_digit as int));
                            }
                        }
                        return None;
                    },
                    Location::Duplicate => {
                        proof {
                            current.lemma_two_homes(set, needed_digit as int);
                        }
                    },
                    Location::Valid(row, col) => {
                        let ghost k = choose|k: int|
                            #![trigger current.at(set, k)]
                            current.only_home(set, needed_digit as int, k)
                                && self.spec_iter_indices(set).coordinate(k) == location;
                        proof {
                            self.lemma_iter(set, k);
                        }
                        if !self.get(location).solved {
                            let box_index = self.box_index(row, col);
                            let solved_cell = Cell::new_single_digit(n, needed_digit);
                            self.set(location, solved_cell);
                            mark(rows, row, needed_digit);
                            mark(cols, col, needed_digit);
                            mark(boxes, box_index, needed_digit);
                            proof {
                                let i = current.number(set, k);
                                let here = self@;
                                assert(here == current.with_tile(
                                    i,
                                    CellView::single(n as nat, needed_digit as int),
                                ));
                                current.lemma_single_home(set, needed_digit as int, k);
                                CellView::lemma_single(n as nat, needed_digit as int);
                                assert(here.keeps_solved(current)) by {
                                    assert forall|x: int|
                                        0 <= x < current.cells.len() && (
                                        #[trigger] current.cells[x]).solved implies here.cells[x]
                                        == current.cells[x] by {
                                        assert(x != i);
                                    }
                                }
                                assert(!current.cells[i].solved && here.cells[i].solved);
                                assert(here.newly_solved(current));
                                here.lemma_total_progress(current);
                                here.lemma_propagated_twice(current, start);
                                here.lemma_total_within(current);
                                current.lemma_total_within(start);
                                if start.stable() {
                                    assert(start.has_region(set));
                                    assert(start.region_singles_placed(set));
                                    assert(start.digit_settled(set, needed_digit as int));
                                    assert(current.at(set, k).determined());
                                }
                                // the marks
                                let place = place_in_box(
                                    here.rows_per_box as int,
                                    here.cols_per_box as int,
                                    row as int,
                                    col as int,
                                );
                                here.lemma_cell_regions(row as int, col as int);
                                assert(here.at(DigitSet::Row(n, row), col as int) == here.cells[i]);
                                assert(here.at(DigitSet::Col(n, col), row as int) == here.cells[i]);
                                assert(here.at(DigitSet::Box(n, box_index), place)
                                    == here.cells[i]);
                                assert(here.used(region_of(0, n, row as int), needed_digit as int));
                                assert(here.used(region_of(1, n, col as int), needed_digit as int));
                                assert(here.used(
                                    region_of(2, n, box_index as int),
                                    needed_digit as int,
                                ));
                            }
                            proof {
                                // marks made before the placement stay sound
                                let here = self@;
                                assert forall|kk: int, x: int, d: int|
                                    0 <= kk <= 2 && 0 <= x < n && 0 <= d < n && current.used(
                                        region_of(kk, n, x),
                                        d,
                                    ) implies #[trigger] here.used(region_of(kk, n, x), d) by {
                                    current.lemma_used_kept(here, region_of(kk, n, x), d);
                                }
                            }
                            placed = true;
                        } else {
                            proof {
                                assert forall|x: int|
                                    current.only_home(
                                        set,
                                        needed_digit as int,
                                        x,
                                    ) implies (#[trigger] current.at(set, x)).determined() by {
                                    if x != k {
                                        assert(!current.at(set, x).allows(needed_digit as int));
                                    }
                                }
                                assert(current.at(set, k).allows(needed_digit as int));
                                assert(current.digit_settled(set, needed_digit as int));
                            }
                        }
                    },
                }
            }
            proof {
                if !placed {
                    assert(start.digit_settled(
                        region_of(kind as int, n, j as int),
                        needed_digit as int,
                    ));
                }
            }
            j += 1;
            if j == n {
                j = 0;
                if kind == 2 {
                    kind = 0;
                    needed_digit += 1;
                } else {
                    kind += 1;
                }
            }
        }
        proof {
            if !placed {
                assert forall|set: DigitSet| #[trigger]
                    start.has_region(set) implies start.region_singles_placed(set) by {
                    start.lemma_region_of(set);
                    let (kk, x) = choose|kk: int, x: int|
                        0 <= kk <= 2 && 0 <= x < n && #[trigger] region_of(kk, n, x) == set;
                    assert forall|d: int| 0 <= d < n implies #[trigger] start.digit_settled(
                        set,
                        d,
                    ) by {
                        assert(start.digit_settled(region_of(kk, n, x), d));
                    }
                }
            }
        }
        Some(placed)
    }

    /// Propagation to a standstill, in one sweep over the cells and one scan
    /// per digit in every round: the digits that solved cells hold are
    /// struck from the unsolved cells of their rows, columns and boxes, and
    /// every digit with one home only is placed there.
    ///
    /// `None` says that the board has no completion. Otherwise the board is
    /// stable.
    pub fn fast_reduction_loop(&mut self) -> (r: Option<()>)
        requires
            old(self)@.wf(),
        ensures
            final(self)@.propagated_from(old(self)@),
            final(self)@.same_shape(old(self)@),
            r is None ==> !final(self)@.solvable() && !old(self)@.solvable() && final(self)@.dead(),
            r is Some ==> final(self)@.stable(),
            old(self)@.stable() ==> r is Some && final(self)@ == old(self)@,
            old(self)@.fast_reduced_to(final(self)@, r),
    {
        let ghost start = self@;
        let mut found_something = true;
        proof {
            start.lemma_propagated_self();
        }
        while found_something
            invariant
                start == old(self)@,
                start.wf(),
                self@.propagated_from(start),
                self@.same_shape(start),
                !found_something ==> self@.stable(),
                start.stable() ==> self@ == start,
            decreases self@.total(), found_something as int,
        {
            let ghost before = self@;
            //Keep track of which digits have been used, and where
            let mut used_rows = self.used_digits(0);
            let mut used_cols = self.used_digits(1);
            let mut used_boxes = self.used_digits(2);
            //Remove the possibilities of solved digits in each row, col, and box it's in.
            let struck = self.strike_used(&mut used_rows, &mut used_cols, &mut used_boxes);
            let ghost mid = self@;
            proof {
                mid.lemma_propagated_twice(before, start);
                mid.lemma_total_within(before);
            }
            let struck = match struck {
                Some(struck) => struck,
                None => {
                    return None;
                },
            };
            //Look for hidden singles for each digit
            let placed = self.place_singles(&mut used_rows, &mut used_cols, &mut used_boxes);
            proof {
                self@.lemma_propagated_twice(mid, before);
                self@.lemma_propagated_twice(before, start);
                self@.lemma_total_within(mid);
            }
            let placed = match placed {
                Some(placed) => placed,
                None => {
                    return None;
                },
            };
            found_something = struck || placed;
        }
        proof {
            if !self@.contradicts() {
                self@.lemma_stable_strikes(start);
            }
        }
        Some(())
    }
}

} // verus!
