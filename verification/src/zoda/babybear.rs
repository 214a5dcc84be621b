//! The data square: a list of cells, each with its column and row, read
//! back row by row or column by column in order of position.

use vstd::prelude::*;
use vstd::string::StringSliceAdditionalSpecFns;
use vstd::arithmetic::div_mod::*;
use vstd::arithmetic::mul::*;
use vstd::arithmetic::power2::pow2;
use crate::babybear::le_bytes_u64;
use crate::field::babybear::{le_bytes_u32, BabyBear, BABYBEAR_PRIME};
use crate::hashing::{hex_chars, sha256, sha256_hex, sha256_spec};
use crate::math::sums::{lemma_sum_single, lemma_sum_zero, sum};
use crate::ntt::cpu::{
    bb_ints, intt_babybear, intt_babybear_spec, lemma_babybear_roundtrip_inverse_first,
    lemma_next_pow2_bound, next_pow2, next_power_of_two, ntt_babybear, ntt_babybear_spec,
};
use crate::ntt::dft::is_reduced;
use crate::ntt::transform::{is_pow2, lemma_pow2_divides};
use super::grid::{
    column_cells, grid_cells, lemma_filter_all, lemma_filter_none, lemma_grid_column_values,
    lemma_grid_columns_below, lemma_grid_index, lemma_grid_row_values,
};

verus! {

/// One value of the square with its column and row.
#[derive(Clone, Copy)]
pub struct BabyBearCell {
    pub value: BabyBear,
    pub column: usize,
    pub row: usize,
}

/// The cells of a square, in the order they were added, with its size.
pub struct BabyBearDataSquare {
    pub cells: Vec<BabyBearCell>,
    pub columns: usize,
    pub rows: usize,
}

/// The line a cell lies on: its row when reading rows, its column when
/// reading columns.
pub open spec fn line_of(c: BabyBearCell, by_row: bool) -> usize {
    if by_row {
        c.row
    } else {
        c.column
    }
}

/// The position of a cell along its line: its column within a row, its row
/// within a column.
pub open spec fn place_of(c: BabyBearCell, by_row: bool) -> usize {
    if by_row {
        c.column
    } else {
        c.row
    }
}

/// The cell lies on line `idx`.
pub open spec fn on_line(by_row: bool, idx: usize) -> spec_fn(BabyBearCell) -> bool {
    |c: BabyBearCell| line_of(c, by_row) == idx
}

/// The cell is at position `k` along its line.
pub open spec fn placed_at(by_row: bool, k: usize) -> spec_fn(BabyBearCell) -> bool {
    |c: BabyBearCell| place_of(c, by_row) == k
}

/// The cell is not at position `k` along its line.
pub open spec fn placed_elsewhere(by_row: bool, k: usize) -> spec_fn(BabyBearCell) -> bool {
    |c: BabyBearCell| place_of(c, by_row) != k
}

/// The smallest position among the cells (0 for none).
pub open spec fn min_place(s: Seq<BabyBearCell>, by_row: bool) -> usize
    decreases s.len(),
{
    if s.len() == 0 {
        0
    } else if s.len() == 1 {
        place_of(s[0], by_row)
    } else {
        let m = min_place(s.drop_last(), by_row);
        let x = place_of(s.last(), by_row);
        if x < m {
            x
        } else {
            m
        }
    }
}

/// The smallest position is the position of some cell, and no cell is
/// placed before it.
pub proof fn lemma_min_place(s: Seq<BabyBearCell>, by_row: bool)
    requires
        s.len() > 0,
    ensures
        exists|i: int| 0 <= i < s.len() && place_of(s[i], by_row) == min_place(s, by_row),
        forall|i: int| 0 <= i < s.len() ==> min_place(s, by_row) <= #[trigger] place_of(s[i], by_row),
    decreases s.len(),
{
    if s.len() > 1 {
        let t = s.drop_last();
        lemma_min_place(t, by_row);
        let i = choose|i: int| 0 <= i < t.len() && place_of(t[i], by_row) == min_place(t, by_row);
        assert(s[i] == t[i]);
        assert forall|j: int| 0 <= j < s.len() implies min_place(s, by_row) <= #[trigger] place_of(
            s[j],
            by_row,
        ) by {
            if j < t.len() {
                assert(s[j] == t[j]);
            }
        }
    } else {
        assert(place_of(s[0], by_row) == min_place(s, by_row));
    }
}

/// Filtering by a predicate and by its negation splits the length.
pub proof fn lemma_filter_split_len<A>(s: Seq<A>, p: spec_fn(A) -> bool, q: spec_fn(A) -> bool)
    requires
        forall|x: A| #[trigger] q(x) == !p(x),
    ensures
        s.filter(p).len() + s.filter(q).len() == s.len(),
    decreases s.len(),
{
    reveal(Seq::filter);
    if s.len() > 0 {
        lemma_filter_split_len(s.drop_last(), p, q);
        assert(q(s.last()) == !p(s.last()));
    }
}

/// A filter keeps at least the elements that pass.
pub proof fn lemma_filter_nonempty<A>(s: Seq<A>, p: spec_fn(A) -> bool, i: int)
    requires
        0 <= i < s.len(),
        p(s[i]),
    ensures
        s.filter(p).len() > 0,
{
    s.lemma_filter_contains(p, i);
}

/// The cells sorted by position, keeping the order of cells at the same
/// position: first every cell at the smallest position, in their order,
/// then the others sorted the same way.
pub open spec fn sort_by_place(s: Seq<BabyBearCell>, by_row: bool) -> Seq<BabyBearCell>
    decreases s.len(),
{
    if s.len() == 0 {
        s
    } else {
        let m = min_place(s, by_row);
        proof {
            lemma_min_place(s, by_row);
            let i = choose|i: int| 0 <= i < s.len() && place_of(s[i], by_row) == m;
            lemma_filter_nonempty(s, placed_at(by_row, m), i);
            lemma_filter_split_len(s, placed_at(by_row, m), placed_elsewhere(by_row, m));
        }
        s.filter(placed_at(by_row, m)) + sort_by_place(s.filter(placed_elsewhere(by_row, m)), by_row)
    }
}

/// Filtering by `p` and then by `q`, where `q` implies `p`, is filtering
/// by `q`.
proof fn lemma_filter_filter<A>(s: Seq<A>, p: spec_fn(A) -> bool, q: spec_fn(A) -> bool)
    requires
        forall|x: A| #[trigger] q(x) ==> p(x),
    ensures
        s.filter(p).filter(q) == s.filter(q),
    decreases s.len(),
{
    reveal(Seq::filter);
    if s.len() > 0 {
        lemma_filter_filter(s.drop_last(), p, q);
        let sub = s.drop_last().filter(p);
        if p(s.last()) {
            assert(sub.push(s.last()).drop_last() =~= sub);
        }
    }
}

/// The facts that the sort's definition rests on: the smallest position is
/// taken by some cell, so the cells elsewhere are fewer.
proof fn lemma_sort_step(s: Seq<BabyBearCell>, by_row: bool)
    requires
        s.len() > 0,
    ensures
        s.filter(placed_elsewhere(by_row, min_place(s, by_row))).len() < s.len(),
        forall|i: int| 0 <= i < s.len() ==> min_place(s, by_row) <= #[trigger] place_of(s[i], by_row),
{
    let m = min_place(s, by_row);
    lemma_min_place(s, by_row);
    let i = choose|i: int| 0 <= i < s.len() && place_of(s[i], by_row) == m;
    lemma_filter_nonempty(s, placed_at(by_row, m), i);
    lemma_filter_split_len(s, placed_at(by_row, m), placed_elsewhere(by_row, m));
}

/// Sorting by position keeps, at every position `k`, exactly the cells at
/// `k`, in their order: no cell is lost or added, and cells at the same
/// position keep their order (the sort is stable).
pub proof fn lemma_sort_stable(s: Seq<BabyBearCell>, by_row: bool, k: usize)
    ensures
        sort_by_place(s, by_row).filter(placed_at(by_row, k)) == s.filter(placed_at(by_row, k)),
    decreases s.len(),
{
    broadcast use vstd::seq_lib::group_filter_ensures;

    if s.len() > 0 {
        let m = min_place(s, by_row);
        lemma_sort_step(s, by_row);
        let a = s.filter(placed_at(by_row, m));
        let rest = s.filter(placed_elsewhere(by_row, m));
        lemma_sort_stable(rest, by_row, k);
        Seq::filter_distributes_over_add(a, sort_by_place(rest, by_row), placed_at(by_row, k));
        assert forall|i: int| 0 <= i < a.len() implies #[trigger] placed_at(by_row, m)(a[i]) by {
            s.lemma_filter_pred(placed_at(by_row, m), i);
        }
        if k == m {
            lemma_filter_all(a, placed_at(by_row, k));
            assert forall|i: int| 0 <= i < rest.len() implies !#[trigger] placed_at(by_row, k)(rest[i]) by {
                s.lemma_filter_pred(placed_elsewhere(by_row, m), i);
            }
            lemma_filter_none(rest, placed_at(by_row, k));
            assert(a + Seq::<BabyBearCell>::empty() =~= a);
        } else {
            assert forall|i: int| 0 <= i < a.len() implies !#[trigger] placed_at(by_row, k)(a[i]) by {
                assert(placed_at(by_row, m)(a[i]));
            }
            lemma_filter_none(a, placed_at(by_row, k));
            lemma_filter_filter(s, placed_elsewhere(by_row, m), placed_at(by_row, k));
            assert(Seq::<BabyBearCell>::empty() + s.filter(placed_at(by_row, k)) =~= s.filter(placed_at(by_row, k)));
        }
    }
}

/// Sorting by position puts the cells in order of position, keeps their
/// number, and takes every cell from the input.
pub proof fn lemma_sort_sorted(s: Seq<BabyBearCell>, by_row: bool)
    ensures
        sort_by_place(s, by_row).len() == s.len(),
        forall|i: int|
            0 <= i < sort_by_place(s, by_row).len() ==> s.contains(#[trigger] sort_by_place(s, by_row)[i]),
        forall|i: int, j: int|
            0 <= i < j < sort_by_place(s, by_row).len() ==> place_of(#[trigger] sort_by_place(s, by_row)[i], by_row)
                <= place_of(#[trigger] sort_by_place(s, by_row)[j], by_row),
    decreases s.len(),
{
    broadcast use vstd::seq_lib::group_filter_ensures;

    if s.len() > 0 {
        let m = min_place(s, by_row);
        lemma_sort_step(s, by_row);
        let a = s.filter(placed_at(by_row, m));
        let rest = s.filter(placed_elsewhere(by_row, m));
        let t = sort_by_place(rest, by_row);
        let out = sort_by_place(s, by_row);
        lemma_sort_sorted(rest, by_row);
        lemma_filter_split_len(s, placed_at(by_row, m), placed_elsewhere(by_row, m));
        assert(out == a + t);
        // every cell of the input at position m comes first; the rest lie
        // after m
        assert forall|i: int| 0 <= i < a.len() implies place_of(#[trigger] a[i], by_row) == m && s.contains(a[i]) by {
            s.lemma_filter_pred(placed_at(by_row, m), i);
            assert(a.contains(a[i]));
            s.lemma_filter_contains_rev(placed_at(by_row, m), a[i]);
        }
        assert forall|i: int| 0 <= i < t.len() implies place_of(#[trigger] t[i], by_row) > m && s.contains(t[i]) by {
            assert(rest.contains(t[i]));
            let j = choose|j: int| 0 <= j < rest.len() && rest[j] == t[i];
            s.lemma_filter_pred(placed_elsewhere(by_row, m), j);
            s.lemma_filter_contains_rev(placed_elsewhere(by_row, m), t[i]);
            let k = choose|k: int| 0 <= k < s.len() && s[k] == t[i];
            assert(m <= place_of(s[k], by_row));
        }
        assert forall|i: int| 0 <= i < out.len() implies s.contains(#[trigger] out[i]) by {
            if i < a.len() {
                assert(out[i] == a[i]);
            } else {
                assert(out[i] == t[i - a.len()]);
            }
        }
        assert forall|i: int, j: int| 0 <= i < j < out.len() implies place_of(#[trigger] out[i], by_row) <= place_of(
            #[trigger] out[j],
            by_row,
        ) by {
            if j < a.len() {
                assert(out[i] == a[i] && out[j] == a[j]);
            } else if i < a.len() {
                assert(out[i] == a[i] && out[j] == t[j - a.len()]);
            } else {
                assert(out[i] == t[i - a.len()] && out[j] == t[j - a.len()]);
            }
        }
    }
}

/// The values of the cells.
pub open spec fn cell_values(s: Seq<BabyBearCell>) -> Seq<BabyBear> {
    s.map_values(|c: BabyBearCell| c.value)
}

/// The values on line `idx` (a row when `by_row`, else a column), ordered
/// by position and, at equal positions, by the order the cells were added.
pub open spec fn line_values(cells: Seq<BabyBearCell>, by_row: bool, idx: usize) -> Seq<BabyBear> {
    cell_values(sort_by_place(cells.filter(on_line(by_row, idx)), by_row))
}

/// The cell matches the column and row.
pub open spec fn at(c: BabyBearCell, column: usize, row: usize) -> bool {
    c.column == column && c.row == row
}

/// The cells that pass `p`, in order.
fn filter_cells(s: &Vec<BabyBearCell>, by_row: bool, k: usize, mode: u8) -> (r: Vec<BabyBearCell>)
    requires
        mode <= 2,
    ensures
        mode == 0 ==> r@ == s@.filter(on_line(by_row, k)),
        mode == 1 ==> r@ == s@.filter(placed_at(by_row, k)),
        mode == 2 ==> r@ == s@.filter(placed_elsewhere(by_row, k)),
{
    let ghost p = if mode == 0 {
        on_line(by_row, k)
    } else if mode == 1 {
        placed_at(by_row, k)
    } else {
        placed_elsewhere(by_row, k)
    };
    let mut r: Vec<BabyBearCell> = Vec::new();
    let mut i: usize = 0;
    while i < s.len()
        invariant
            i <= s.len(),
            r@ == s@.take(i as int).filter(p),
            mode <= 2,
            p == (if mode == 0 {
                on_line(by_row, k)
            } else if mode == 1 {
                placed_at(by_row, k)
            } else {
                placed_elsewhere(by_row, k)
            }),
        decreases s.len() - i,
    {
        let c = s[i];
        let line = if by_row {
            c.row
        } else {
            c.column
        };
        let place = if by_row {
            c.column
        } else {
            c.row
        };
        let keep = if mode == 0 {
            line == k
        } else if mode == 1 {
            place == k
        } else {
            place != k
        };
        proof {
            assert(s@.take(i + 1) =~= s@.take(i as int).push(s@[i as int]));
            s@.take(i as int).lemma_filter_push(s@[i as int], p);
            assert(keep == p(c));
        }
        if keep {
            r.push(c);
        }
        i += 1;
    }
    assert(s@.take(s.len() as int) =~= s@);
    r
}

/// The smallest position among the cells.
fn min_place_of(s: &Vec<BabyBearCell>, by_row: bool) -> (m: usize)
    requires
        s.len() > 0,
    ensures
        m == min_place(s@, by_row),
{
    let mut m = if by_row {
        s[0].column
    } else {
        s[0].row
    };
    let mut i: usize = 1;
    assert(s@.take(1).drop_last() =~= Seq::<BabyBearCell>::empty());
    while i < s.len()
        invariant
            1 <= i <= s.len(),
            m == min_place(s@.take(i as int), by_row),
        decreases s.len() - i,
    {
        let x = if by_row {
            s[i].column
        } else {
            s[i].row
        };
        assert(s@.take(i + 1).drop_last() =~= s@.take(i as int));
        if x < m {
            m = x;
        }
        i += 1;
    }
    assert(s@.take(s.len() as int) =~= s@);
    m
}

/// The values on a line, ordered by position (stable for equal positions).
fn line_values_of(cells: &Vec<BabyBearCell>, by_row: bool, idx: usize) -> (r: Vec<BabyBear>)
    ensures
        r@ == line_values(cells@, by_row, idx),
{
    let on = filter_cells(cells, by_row, idx, 0);
    let ghost target = sort_by_place(on@, by_row);
    let mut sorted: Vec<BabyBearCell> = Vec::new();
    let mut rest = on;
    while rest.len() > 0
        invariant
            sorted@ + sort_by_place(rest@, by_row) == target,
        decreases rest.len(),
    {
        let m = min_place_of(&rest, by_row);
        let mut same = filter_cells(&rest, by_row, m, 1);
        let others = filter_cells(&rest, by_row, m, 2);
        proof {
            lemma_min_place(rest@, by_row);
            let i = choose|i: int| 0 <= i < rest@.len() && place_of(rest@[i], by_row) == m;
            lemma_filter_nonempty(rest@, placed_at(by_row, m), i);
            lemma_filter_split_len(rest@, placed_at(by_row, m), placed_elsewhere(by_row, m));
            assert(sort_by_place(rest@, by_row) == same@ + sort_by_place(others@, by_row));
            assert(sorted@ + same@ + sort_by_place(others@, by_row) == sorted@ + (same@
                + sort_by_place(others@, by_row)));
        }
        sorted.append(&mut same);
        rest = others;
    }
    assert(sorted@ == target);
    let mut r: Vec<BabyBear> = Vec::new();
    let mut i: usize = 0;
    while i < sorted.len()
        invariant
            i <= sorted.len(),
            r@ == cell_values(sorted@.take(i as int)),
        decreases sorted.len() - i,
    {
        assert(cell_values(sorted@.take(i + 1)) =~= cell_values(sorted@.take(i as int)).push(
            sorted@[i as int].value,
        ));
        r.push(sorted[i].value);
        i += 1;
    }
    assert(sorted@.take(sorted.len() as int) =~= sorted@);
    r
}

/// The little-endian bytes of every cell's value, cell after cell.
pub open spec fn cells_bytes(s: Seq<BabyBearCell>) -> Seq<u8>
    decreases s.len(),
{
    if s.len() == 0 {
        Seq::empty()
    } else {
        cells_bytes(s.drop_last()) + le_bytes_u32(s.last().value.value)
    }
}

impl BabyBearDataSquare {
    /// A square with the given cells and size.
    pub fn new(cells: Vec<BabyBearCell>, columns: usize, rows: usize) -> (r: Self)
        ensures
            r.cells@ == cells@,
            r.columns == columns,
            r.rows == rows,
    {
        Self { cells, columns, rows }
    }

    /// Sets the value at `(column, row)`: the first cell there takes the
    /// value, or a new cell is added at the end; the size grows to include
    /// the position.
    pub fn set_cell(&mut self, column: usize, row: usize, value: BabyBear)
        requires
            column < usize::MAX,
            row < usize::MAX,
        ensures
            final(self).rows == (if old(self).rows > row + 1 {
                old(self).rows as int
            } else {
                row + 1
            }),
            final(self).columns == (if old(self).columns > column + 1 {
                old(self).columns as int
            } else {
                column + 1
            }),
            forall|i: int|
                0 <= i < old(self).cells.len() && at(old(self).cells[i], column, row) && (forall|j: int|
                    0 <= j < i ==> !at(#[trigger] old(self).cells[j], column, row))
                    ==> final(self).cells@ == old(self).cells@.update(
                    i,
                    BabyBearCell { value, column, row },
                ),
            (forall|j: int| 0 <= j < old(self).cells.len() ==> !at(#[trigger] old(self).cells[j], column, row))
                ==> final(self).cells@ == old(self).cells@.push(
                BabyBearCell { value, column, row },
            ),
    {
        let n = self.cells.len();
        let mut i: usize = 0;
        while i < n
            invariant
                n == self.cells.len(),
                self.cells@ == old(self).cells@,
                self.rows == old(self).rows,
                self.columns == old(self).columns,
                i <= n,
                forall|j: int| 0 <= j < i ==> !at(#[trigger] self.cells[j], column, row),
            ensures
                i < n ==> at(self.cells[i as int], column, row),
            decreases n - i,
        {
            if self.cells[i].column == column && self.cells[i].row == row {
                break;
            }
            i += 1;
        }
        if i < n {
            let c = self.cells[i];
            self.cells.set(i, BabyBearCell { value, column: c.column, row: c.row });
            proof {
                let i0 = i as int;
                assert forall|k: int|
                    0 <= k < old(self).cells.len() && at(old(self).cells[k], column, row) && (forall|j: int|
                        0 <= j < k ==> !at(#[trigger] old(self).cells[j], column, row)) implies k == i0 by {
                    if k > i0 {
                        assert(at(old(self).cells[i0], column, row));
                    }
                }
            }
        } else {
            self.cells.push(BabyBearCell { value, column, row });
        }
        if self.rows < row + 1 {
            self.rows = row + 1;
        }
        if self.columns < column + 1 {
            self.columns = column + 1;
        }
    }

    /// The commitment to the square: the lowercase hexadecimal SHA-256
    /// digest of the little-endian bytes of every cell's value, in order.
    pub fn hash_root(&self) -> (r: String)
        ensures
            r@ == hex_chars(sha256_spec(cells_bytes(self.cells@))),
    {
        let mut bytes: Vec<u8> = Vec::new();
        let mut i: usize = 0;
        while i < self.cells.len()
            invariant
                i <= self.cells.len(),
                bytes@ == cells_bytes(self.cells@.take(i as int)),
            decreases self.cells.len() - i,
        {
            let b = self.cells[i].value.to_bytes();
            assert(self.cells@.take(i + 1).drop_last() =~= self.cells@.take(i as int));
            bytes.push(b[0]);
            bytes.push(b[1]);
            bytes.push(b[2]);
            bytes.push(b[3]);
            assert(bytes@ =~= cells_bytes(self.cells@.take(i as int)) + b@);
            i += 1;
        }
        assert(self.cells@.take(self.cells.len() as int) =~= self.cells@);
        sha256_hex(bytes.as_slice())
    }

    /// The values in row `row`, ordered by column.
    pub fn get_row(&self, row: usize) -> (r: Vec<BabyBear>)
        ensures
            r@ == line_values(self.cells@, true, row),
    {
        line_values_of(&self.cells, true, row)
    }

    /// The values in column `column`, ordered by row.
    pub fn get_column(&self, column: usize) -> (r: Vec<BabyBear>)
        ensures
            r@ == line_values(self.cells@, false, column),
    {
        line_values_of(&self.cells, false, column)
    }
}

/// A square of `cols` columns and `rows` rows, filled column by column with
/// `set_cell`: cell `(c, r)` gets `vals[c * rows + r]`.
fn fill_square(cols: usize, rows: usize, vals: &Vec<BabyBear>) -> (sq: BabyBearDataSquare)
    requires
        1 <= cols < usize::MAX,
        1 <= rows < usize::MAX,
        vals.len() == cols * rows,
    ensures
        sq.cells@ == grid_cells(vals@, cols as nat, rows as nat),
        sq.columns == cols,
        sq.rows == rows,
{
    let mut sq = BabyBearDataSquare::new(Vec::new(), 0, 0);
    let mut col: usize = 0;
    assert(grid_cells(vals@, 0, rows as nat) =~= Seq::<BabyBearCell>::empty());
    while col < cols
        invariant
            col <= cols,
            1 <= cols < usize::MAX,
            1 <= rows < usize::MAX,
            vals.len() == cols * rows,
            sq.cells@ == grid_cells(vals@, col as nat, rows as nat),
            sq.columns == col,
            sq.rows == (if col == 0 {
                0
            } else {
                rows
            }),
        decreases cols - col,
    {
        let mut row: usize = 0;
        proof {
            lemma_mul_inequality(col as int + 1, cols as int, rows as int);
            lemma_mul_is_distributive_add_other_way(rows as int, col as int, 1);
        }
        while row < rows
            invariant
                col < cols,
                row <= rows,
                1 <= cols < usize::MAX,
                1 <= rows < usize::MAX,
                vals.len() == cols * rows,
                (col + 1) * rows <= cols * rows,
                (col + 1) * rows == col * rows + rows,
                sq.cells@ == grid_cells(vals@, col as nat, rows as nat) + column_cells(
                    vals@,
                    col as int,
                    rows as nat,
                ).take(row as int),
                sq.columns == (if col == 0 && row == 0 {
                    0
                } else if row == 0 {
                    col as int
                } else {
                    col + 1
                }),
                sq.rows == (if col == 0 {
                    row
                } else {
                    rows
                }),
            decreases rows - row,
        {
            let ghost old_cells = sq.cells@;
            proof {
                assert forall|j: int| 0 <= j < old_cells.len() implies !at(
                    #[trigger] old_cells[j],
                    col,
                    row,
                ) by {
                    if j < col * rows {
                        lemma_grid_columns_below(vals@, col as nat, rows as nat, j);
                    }
                }
            }
            let v = vals[col * rows + row];
            sq.set_cell(col, row, v);
            proof {
                lemma_grid_index(col as int, row as int, rows as int);
                assert(column_cells(vals@, col as int, rows as nat).take(row + 1) =~= column_cells(
                    vals@,
                    col as int,
                    rows as nat,
                ).take(row as int).push(BabyBearCell { value: v, column: col, row }));
            }
            row += 1;
        }
        proof {
            assert(column_cells(vals@, col as int, rows as nat).take(rows as int) =~= column_cells(
                vals@,
                col as int,
                rows as nat,
            ));
            super::grid::lemma_grid_split(vals@, (col + 1) as nat, rows as nat);
        }
        col += 1;
    }
    sq
}

/// `v` followed by zeros up to length `n`.
pub open spec fn padded(v: Seq<BabyBear>, n: nat) -> Seq<BabyBear> {
    Seq::new(n, |i: int| if i < v.len() { v[i] } else { BabyBear { value: 0 } })
}

/// The elements are all canonical.
pub open spec fn canonical(v: Seq<BabyBear>) -> bool {
    forall|i: int| 0 <= i < v.len() ==> #[trigger] v[i].value < BABYBEAR_PRIME
}

/// A power of two up to `2^27` divides `p - 1`.
proof fn lemma_pow2_divides_order(n: nat)
    requires
        is_pow2(n),
        n <= pow2(27),
    ensures
        (BABYBEAR_PRIME - 1) % (n as int) == 0,
{
    vstd::arithmetic::power2::lemma2_to64();
    crate::ntt::bitrev::lemma_pow2_is_pow2(27);
    lemma_pow2_divides(n, pow2(27));
    let q = pow2(27) / n;
    lemma_fundamental_div_mod(pow2(27) as int, n as int);
    assert(BABYBEAR_PRIME - 1 == (15 * q) * n) by {
        lemma_mul_is_associative(15, q as int, n as int);
    }
    lemma_mod_multiples_basic(15 * q as int, n as int);
}

/// Zero-pads `v` to `n` values and applies the inverse transform and then
/// the forward transform; the two undo each other, so the result is the
/// padded values themselves.
fn pad_and_transform(v: &Vec<BabyBear>, n: usize) -> (r: Vec<BabyBear>)
    requires
        is_pow2(n as nat),
        n <= pow2(27),
        v.len() <= n,
        canonical(v@),
    ensures
        r@ == padded(v@, n as nat),
{
    let mut w: Vec<BabyBear> = Vec::new();
    let mut i: usize = 0;
    while i < n
        invariant
            i <= n,
            v.len() <= n,
            w@ == padded(v@, n as nat).take(i as int),
        decreases n - i,
    {
        if i < v.len() {
            w.push(v[i]);
        } else {
            w.push(BabyBear::zero());
        }
        assert(w@ =~= padded(v@, n as nat).take(i + 1));
        i += 1;
    }
    assert(w@ =~= padded(v@, n as nat));
    let ghost x = bb_ints(w@);
    proof {
        lemma_pow2_divides_order(n as nat);
        assert(is_reduced(x, BABYBEAR_PRIME as int));
    }
    intt_babybear(w.as_mut_slice());
    proof {
        lemma_babybear_roundtrip_inverse_first(x);
        crate::ntt::transform::lemma_fft_len(
            x,
            crate::ntt::transform::inverse_roots(crate::ntt::babybear_roots::babybear_roots(n as nat)),
            BABYBEAR_PRIME as int,
        );
        let y = bb_ints(w@);
        assert forall|k: int| 0 <= k < n / 2 implies w@[k].value + BABYBEAR_PRIME <= u32::MAX by {
            assert(y[k] == w@[k].value);
            vstd::arithmetic::div_mod::lemma_mod_bound(
                y[k],
                BABYBEAR_PRIME as int,
            );
        }
    }
    ntt_babybear(w.as_mut_slice());
    assert(bb_ints(w@) == x);
    assert(w@ =~= padded(v@, n as nat)) by {
        assert forall|k: int| 0 <= k < n implies w@[k] == padded(v@, n as nat)[k] by {
            assert(bb_ints(w@)[k] == x[k]);
        }
    }
    w
}

/// The terms `xs[j] * cs[j]` of a linear combination.
pub open spec fn product_terms(xs: Seq<BabyBear>, cs: Seq<BabyBear>) -> spec_fn(int) -> int {
    |j: int| xs[j].value * cs[j].value
}

/// The linear combination `xs[0] cs[0] + xs[1] cs[1] + ...` mod p, over the
/// positions that both sequences have.
pub open spec fn combination(xs: Seq<BabyBear>, cs: Seq<BabyBear>) -> int {
    let n = if xs.len() < cs.len() {
        xs.len()
    } else {
        cs.len()
    };
    sum(n, product_terms(xs, cs)) % (BABYBEAR_PRIME as int)
}

/// The combination is weighted position by position: a row whose only
/// nonzero entry is at `j` has combination `xs[j] * cs[j]` mod p.
pub proof fn lemma_combination_single(xs: Seq<BabyBear>, cs: Seq<BabyBear>, j: int)
    requires
        0 <= j < xs.len(),
        j < cs.len(),
        forall|k: int| 0 <= k < xs.len() && k != j ==> #[trigger] xs[k].value == 0,
    ensures
        combination(xs, cs) == (xs[j].value * cs[j].value) % (BABYBEAR_PRIME as int),
{
    let n = if xs.len() < cs.len() {
        xs.len()
    } else {
        cs.len()
    };
    let f = product_terms(xs, cs);
    assert forall|k: int| 0 <= k < n && k != j implies #[trigger] f(k) == 0 by {
        assert(xs[k].value == 0);
    }
    lemma_sum_single(n as nat, f, j);
}

/// Appending one more entry and coefficient adds their product to the
/// combination, mod p.
pub proof fn lemma_combination_push(xs: Seq<BabyBear>, cs: Seq<BabyBear>, x: BabyBear, c: BabyBear)
    requires
        xs.len() == cs.len(),
    ensures
        combination(xs.push(x), cs.push(c)) == (combination(xs, cs) + x.value * c.value) % (
        BABYBEAR_PRIME as int),
{
    let n = xs.len();
    let f = product_terms(xs, cs);
    let g = product_terms(xs.push(x), cs.push(c));
    assert forall|k: int| 0 <= k < n implies #[trigger] g(k) == f(k) by {
        assert(xs.push(x)[k] == xs[k]);
        assert(cs.push(c)[k] == cs[k]);
    }
    crate::math::sums::lemma_sum_ext(n, g, f);
    assert(g(n as int) == x.value * c.value);
    lemma_add_mod_noop(sum(n, f), x.value * c.value, BABYBEAR_PRIME as int);
    lemma_mod_twice(sum(n, f), BABYBEAR_PRIME as int);
    lemma_add_mod_noop(sum(n, f) % (BABYBEAR_PRIME as int), x.value * c.value, BABYBEAR_PRIME as int);
}

/// The linear combination of a row with the coefficients, summed pairwise
/// over the positions that both have.
pub fn combine_row(xs: &Vec<BabyBear>, cs: &Vec<BabyBear>) -> (r: BabyBear)
    ensures
        r.value == combination(xs@, cs@),
{
    let n = if xs.len() < cs.len() {
        xs.len()
    } else {
        cs.len()
    };
    let ghost p = BABYBEAR_PRIME as int;
    let ghost f = product_terms(xs@, cs@);
    let mut acc = BabyBear::zero();
    let mut i: usize = 0;
    while i < n
        invariant
            i <= n,
            n <= xs.len(),
            n <= cs.len(),
            p == BABYBEAR_PRIME,
            f == product_terms(xs@, cs@),
            acc.value == sum(i as nat, f) % p,
        decreases n - i,
    {
        let t = xs[i] * cs[i];
        proof {
            lemma_add_mod_noop(sum(i as nat, f), f(i as int), p);
            lemma_mod_twice(f(i as int), p);
            lemma_mod_bound(sum(i as nat, f), p);
            lemma_mod_bound(f(i as int), p);
            assert(sum((i + 1) as nat, f) == sum(i as nat, f) + f(i as int));
            assert(t.value == f(i as int) % p);
        }
        acc = acc + t;
        i += 1;
    }
    acc
}

/// The big-endian value of the first eight bytes.
pub open spec fn be_u64(b: Seq<u8>) -> int {
    ((((((b[0] * 256 + b[1]) * 256 + b[2]) * 256 + b[3]) * 256 + b[4]) * 256 + b[5]) * 256 + b[6])
        * 256 + b[7]
}

/// Coefficient `i` derived from the bytes of a commitment: the first eight
/// bytes of `SHA-256(root || le64(i))` read big-endian, reduced, plus `i`,
/// mod p.
#[verifier::opaque]
pub open spec fn coefficient_spec(root: Seq<u8>, i: int) -> int {
    let p = BABYBEAR_PRIME as int;
    ((be_u64(sha256_spec(root + le_bytes_u64(i as u64))) % p) + i % p) % p
}

/// Every coefficient is a canonical value.
pub proof fn lemma_coefficient_bound(root: Seq<u8>, i: int)
    ensures
        0 <= coefficient_spec(root, i) < BABYBEAR_PRIME,
{
    reveal(coefficient_spec);
    let p = BABYBEAR_PRIME as int;
    lemma_mod_bound((be_u64(sha256_spec(root + le_bytes_u64(i as u64))) % p) + i % p, p);
}

/// The `count` coefficients of the random linear combination, derived from
/// the commitment `root` (index `i` hashed as its eight little-endian bytes).
pub fn rlc_coefficients(root: &str, count: usize) -> (r: Vec<BabyBear>)
    ensures
        r.len() == count,
        forall|i: int| 0 <= i < count ==> #[trigger] r[i].value == coefficient_spec(root.spec_bytes(), i),
{
    reveal(coefficient_spec);
    let bytes = root.as_bytes();
    let mut r: Vec<BabyBear> = Vec::new();
    let mut i: usize = 0;
    while i < count
        invariant
            i <= count,
            bytes@ == root.spec_bytes(),
            r.len() == i,
            forall|k: int| 0 <= k < i ==> #[trigger] r[k].value == coefficient_spec(root.spec_bytes(), k),
        decreases count - i,
    {
        proof {
            reveal(coefficient_spec);
        }
        let mut data: Vec<u8> = Vec::new();
        let mut j: usize = 0;
        while j < bytes.len()
            invariant
                j <= bytes.len(),
                data@ == bytes@.take(j as int),
            decreases bytes.len() - j,
        {
            data.push(bytes[j]);
            assert(data@ =~= bytes@.take(j + 1));
            j += 1;
        }
        let v = i as u64;
        data.push((v % 256) as u8);
        data.push(((v / 0x100) % 256) as u8);
        data.push(((v / 0x1_0000) % 256) as u8);
        data.push(((v / 0x100_0000) % 256) as u8);
        data.push(((v / 0x1_0000_0000) % 256) as u8);
        data.push(((v / 0x100_0000_0000) % 256) as u8);
        data.push(((v / 0x1_0000_0000_0000) % 256) as u8);
        data.push(((v / 0x100_0000_0000_0000) % 256) as u8);
        assert(data@ =~= bytes@ + le_bytes_u64(v));
        let d = sha256(data.as_slice());
        let val: u64 = (d[0] as u64) * 0x100_0000_0000_0000 + (d[1] as u64) * 0x1_0000_0000_0000
            + (d[2] as u64) * 0x100_0000_0000 + (d[3] as u64) * 0x1_0000_0000 + (d[4] as u64)
            * 0x100_0000 + (d[5] as u64) * 0x1_0000 + (d[6] as u64) * 0x100 + (d[7] as u64);
        assert(val == be_u64(d@));
        let c = BabyBear::new(val) + BabyBear::new(i as u64);
        r.push(c);
        i += 1;
    }
    r
}

/// The values of the data square: each input reduced mod p.
pub open spec fn data_values(values: Seq<u64>) -> Seq<BabyBear> {
    values.map_values(|v: u64| BabyBear { value: (v % (BABYBEAR_PRIME as u64)) as u32 })
}

/// The extended square's values, column by column: column `c` holds the
/// data column `c` (`d` values) followed by zeros up to `n`.
pub open spec fn extended_values(dv: Seq<BabyBear>, d: nat, n: nat) -> Seq<BabyBear> {
    Seq::new(
        d * n,
        |k: int|
            if k % (n as int) < d {
                dv[(k / (n as int)) * d + k % (n as int)]
            } else {
                BabyBear { value: 0 }
            },
    )
}

/// Row `r` of the extended square: data row `r` for `r < d`, zeros below.
pub open spec fn extended_row(dv: Seq<BabyBear>, d: nat, r: int) -> Seq<BabyBear> {
    Seq::new(d, |c: int| if r < d { dv[c * d + r] } else { BabyBear { value: 0 } })
}

/// What one encode-and-check run computes.
pub struct ZodaRun {
    /// The square with every column extended to a power-of-two length.
    pub extended: BabyBearDataSquare,
    /// The commitment to the extended square.
    pub root: String,
    /// The combination coefficients derived from the commitment, one per row.
    pub coefficients: Vec<BabyBear>,
    /// The combinations of the data rows, encoded the way the columns are.
    pub y_encoded: Vec<BabyBear>,
    /// For every sampled row, the combination of that row of the extended square.
    pub row_sums: Vec<BabyBear>,
}

/// A combination of a zero row is zero.
proof fn lemma_combination_zero(xs: Seq<BabyBear>, cs: Seq<BabyBear>)
    requires
        forall|j: int| 0 <= j < xs.len() ==> #[trigger] xs[j].value == 0,
    ensures
        combination(xs, cs) == 0,
{
    let n = if xs.len() < cs.len() {
        xs.len()
    } else {
        cs.len()
    };
    assert forall|j: int| 0 <= j < n implies #[trigger] product_terms(xs, cs)(j) == 0 by {
        assert(xs[j].value == 0);
    }
    lemma_sum_zero(n, product_terms(xs, cs));
}

/// The encode-and-check run on a `data_size` by `data_size` square whose
/// values (column by column) are `values` mod p: every column is extended
/// to `n = next_pow2(data_size)` values by the inverse and forward
/// transforms, the extended square is committed to, coefficients are
/// derived from the commitment, the combination of every data row is
/// encoded like a column, and each sampled row's combination is computed.
/// The sampled combinations always equal the encoded ones.
pub fn run_zoda_babybear(data_size: usize, values: &Vec<u64>, sample_rows: &Vec<usize>) -> (r: ZodaRun)
    requires
        1 <= data_size <= pow2(27),
        values.len() == data_size * data_size,
        data_size * next_pow2(data_size as nat) <= usize::MAX,
        forall|k: int|
            0 <= k < sample_rows.len() ==> #[trigger] sample_rows[k] < next_pow2(data_size as nat),
    ensures
        ({
            let d = data_size as nat;
            let n = next_pow2(d);
            let dv = data_values(values@);
            &&& r.extended.cells@ == grid_cells(extended_values(dv, d, n), d, n)
            &&& r.extended.columns == d
            &&& r.extended.rows == n
            &&& r.root@ == hex_chars(sha256_spec(cells_bytes(r.extended.cells@)))
            &&& r.coefficients.len() == n
            &&& forall|i: int|
                0 <= i < n ==> #[trigger] r.coefficients[i].value == coefficient_spec(
                    vstd::utf8::encode_utf8(r.root@),
                    i,
                )
            &&& r.y_encoded.len() == n
            &&& forall|row: int|
                0 <= row < n ==> #[trigger] r.y_encoded[row].value == (if row < d {
                    combination(extended_row(dv, d, row), r.coefficients@)
                } else {
                    0
                })
            &&& r.row_sums.len() == sample_rows.len()
            &&& forall|k: int|
                0 <= k < sample_rows.len() ==> #[trigger] r.row_sums[k].value == combination(
                    extended_row(dv, d, sample_rows[k] as int),
                    r.coefficients@,
                )
            &&& forall|k: int|
                0 <= k < sample_rows.len() ==> #[trigger] r.row_sums[k] == r.y_encoded[sample_rows[k] as int]
        }),
{
    let d = data_size;
    let ghost dv = data_values(values@);
    let mut dvals: Vec<BabyBear> = Vec::new();
    let mut k: usize = 0;
    while k < d * d
        invariant
            k <= d * d,
            values.len() == d * d,
            dv == data_values(values@),
            dvals@ == dv.take(k as int),
        decreases d * d - k,
    {
        dvals.push(BabyBear::new(values[k]));
        assert(dvals@ =~= dv.take(k + 1));
        k += 1;
    }
    assert(dvals@ =~= dv);
    proof {
        vstd::arithmetic::power2::lemma2_to64();
        lemma_mul_inequality(1, d as int, d as int);
    }
    let data_square = fill_square(d, d, &dvals);
    let n = next_power_of_two(data_square.rows);
    let cols = data_square.columns;
    let ghost ev = extended_values(dv, d as nat, n as nat);
    proof {
        lemma_next_pow2_bound(d as nat);
        lemma_mul_inequality(1, n as int, d as int);
    }
    let mut square: Vec<BabyBear> = Vec::new();
    let mut col: usize = 0;
    while col < cols
        invariant
            col <= cols,
            cols == d,
            1 <= d,
            1 <= n <= pow2(27),
            is_pow2(n as nat),
            d <= n,
            d * n <= usize::MAX,
            data_square.cells@ == grid_cells(dv, d as nat, d as nat),
            dv == data_values(values@),
            dv.len() == d * d,
            ev == extended_values(dv, d as nat, n as nat),
            square@ == ev.take(col * n),
        decreases cols - col,
    {
        let column = data_square.get_column(col);
        proof {
            lemma_grid_column_values(dv, d as nat, d as nat, col as int);
            assert forall|i: int| 0 <= i < column.len() implies #[trigger] column@[i].value
                < BABYBEAR_PRIME by {
                let kk = col * d + i;
                lemma_mul_inequality(col as int, d as int - 1, d as int);
                lemma_mul_is_distributive_sub_other_way(d as int, d as int, 1);
                assert(0 <= kk < d * d);
                assert(column@[i] == dv[kk]);
                assert(dv[kk].value == (values@[kk] % (BABYBEAR_PRIME as u64)) as u32);
            }
        }
        let ext = pad_and_transform(&column, n);
        let mut r: usize = 0;
        proof {
            lemma_mul_inequality(col as int + 1, d as int, n as int);
            lemma_mul_is_distributive_add_other_way(n as int, col as int, 1);
        }
        while r < n
            invariant
                r <= n,
                col < cols,
                cols == d,
                (col + 1) * n <= d * n,
                (col + 1) * n == col * n + n,
                ext@ == padded(column@, n as nat),
                column@ == Seq::new(d as nat, |i: int| dv[col * d + i]),
                ev == extended_values(dv, d as nat, n as nat),
                square@ == ev.take(col * n + r),
            decreases n - r,
        {
            square.push(ext[r]);
            proof {
                lemma_grid_index(col as int, r as int, n as int);
                assert(square@ =~= ev.take(col * n + r + 1));
            }
            r += 1;
        }
        col += 1;
    }
    assert(square@ =~= ev);
    let extended = fill_square(cols, n, &square);
    let root = extended.hash_root();
    let coefficients = rlc_coefficients(root.as_str(), extended.rows);
    let mut y: Vec<BabyBear> = Vec::new();
    let mut row: usize = 0;
    while row < data_square.rows
        invariant
            row <= d,
            data_square.rows == d,
            1 <= d <= n,
            d * n <= usize::MAX,
            extended.cells@ == grid_cells(ev, d as nat, n as nat),
            ev == extended_values(dv, d as nat, n as nat),
            y.len() == row,
            forall|i: int|
                0 <= i < row ==> #[trigger] y[i].value == combination(
                    extended_row(dv, d as nat, i),
                    coefficients@,
                ),
        decreases d - row,
    {
        let row_data = extended.get_row(row);
        proof {
            lemma_extended_row(dv, d as nat, n as nat, row as int);
        }
        y.push(combine_row(&row_data, &coefficients));
        row += 1;
    }
    proof {
        assert forall|i: int| 0 <= i < y.len() implies #[trigger] y@[i].value < BABYBEAR_PRIME by {
            lemma_mod_bound(
                sum(
                    if extended_row(dv, d as nat, i).len() < coefficients@.len() {
                        extended_row(dv, d as nat, i).len()
                    } else {
                        coefficients@.len()
                    },
                    product_terms(extended_row(dv, d as nat, i), coefficients@),
                ),
                BABYBEAR_PRIME as int,
            );
        }
    }
    let y_encoded = pad_and_transform(&y, n);
    let mut row_sums: Vec<BabyBear> = Vec::new();
    let mut k: usize = 0;
    while k < sample_rows.len()
        invariant
            k <= sample_rows.len(),
            forall|j: int| 0 <= j < sample_rows.len() ==> #[trigger] sample_rows[j] < n,
            1 <= d <= n,
            d * n <= usize::MAX,
            extended.cells@ == grid_cells(ev, d as nat, n as nat),
            ev == extended_values(dv, d as nat, n as nat),
            y_encoded@ == padded(y@, n as nat),
            y.len() == d,
            forall|i: int|
                0 <= i < d ==> #[trigger] y[i].value == combination(
                    extended_row(dv, d as nat, i),
                    coefficients@,
                ),
            row_sums.len() == k,
            forall|j: int|
                0 <= j < k ==> #[trigger] row_sums[j].value == combination(
                    extended_row(dv, d as nat, sample_rows[j] as int),
                    coefficients@,
                ),
            forall|j: int| 0 <= j < k ==> #[trigger] row_sums[j] == y_encoded[sample_rows[j] as int],
        decreases sample_rows.len() - k,
    {
        let s = sample_rows[k];
        let row_data = extended.get_row(s);
        proof {
            lemma_extended_row(dv, d as nat, n as nat, s as int);
            if s >= d {
                lemma_combination_zero(extended_row(dv, d as nat, s as int), coefficients@);
            }
        }
        let sum_s = combine_row(&row_data, &coefficients);
        proof {
            assert(row_data@ == extended_row(dv, d as nat, s as int));
            if s < d {
                assert(y_encoded[s as int] == y[s as int]);
                assert(y[s as int].value == combination(extended_row(dv, d as nat, s as int), coefficients@));
                assert(sum_s.value == y[s as int].value);
            } else {
                assert(y_encoded[s as int] == BabyBear { value: 0 });
                assert(sum_s.value == 0);
            }
        }
        assert(sum_s == y_encoded[s as int]);
        row_sums.push(sum_s);
        k += 1;
    }
    ZodaRun { extended, root, coefficients, y_encoded, row_sums }
}

/// Row `r` of the extended square, read from its cells, is `extended_row`.
proof fn lemma_extended_row(dv: Seq<BabyBear>, d: nat, n: nat, r: int)
    requires
        0 <= r < n,
        1 <= d <= n,
        d * n <= usize::MAX,
    ensures
        line_values(grid_cells(extended_values(dv, d, n), d, n), true, r as usize) == extended_row(
            dv,
            d,
            r,
        ),
{
    let ev = extended_values(dv, d, n);
    lemma_mul_inequality(1, d as int, n as int);
    lemma_mul_inequality(1, n as int, d as int);
    lemma_grid_row_values(ev, d, n, r);
    assert forall|c: int| 0 <= c < d implies ev[c * n + r] == #[trigger] extended_row(dv, d, r)[c] by {
        lemma_grid_index(c, r, n as int);
        lemma_mul_inequality(c + 1, d as int, n as int);
        lemma_mul_is_distributive_add_other_way(n as int, c, 1);
    }
    assert(Seq::new(d, |c: int| ev[c * n + r]) =~= extended_row(dv, d, r));
}

} // verus!
