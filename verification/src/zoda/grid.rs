//! Squares filled column by column: which cells each row and column holds,
//! and the order in which they are read back.

use vstd::prelude::*;
use vstd::arithmetic::div_mod::*;
use vstd::arithmetic::mul::*;
use crate::field::babybear::BabyBear;
use super::babybear::{
    lemma_min_place, line_values, min_place, on_line, place_of, placed_at, placed_elsewhere,
    sort_by_place, BabyBearCell, cell_values,
};

verus! {

/// The cell holding `v` at `(column, row)`.
pub open spec fn cell_at(v: BabyBear, column: int, row: int) -> BabyBearCell {
    BabyBearCell { value: v, column: column as usize, row: row as usize }
}

/// The cells of a `cols` by `rows` square listed column by column: cell `k`
/// holds `vals[k]` at column `k / rows`, row `k % rows`.
pub open spec fn grid_cells(vals: Seq<BabyBear>, cols: nat, rows: nat) -> Seq<BabyBearCell> {
    Seq::new(cols * rows, |k: int| cell_at(vals[k], k / (rows as int), k % (rows as int)))
}

/// The cells of column `c` of such a square, top to bottom.
pub open spec fn column_cells(vals: Seq<BabyBear>, c: int, rows: nat) -> Seq<BabyBearCell> {
    Seq::new(rows, |r: int| cell_at(vals[c * rows + r], c, r))
}

/// The cells of row `r` of such a square, left to right.
pub open spec fn row_cells(vals: Seq<BabyBear>, cols: nat, rows: nat, r: int) -> Seq<BabyBearCell> {
    Seq::new(cols, |c: int| cell_at(vals[c * rows + r], c, r))
}

/// A filter that every element passes keeps everything.
pub proof fn lemma_filter_all<A>(s: Seq<A>, p: spec_fn(A) -> bool)
    requires
        forall|i: int| 0 <= i < s.len() ==> #[trigger] p(s[i]),
    ensures
        s.filter(p) == s,
    decreases s.len(),
{
    reveal(Seq::filter);
    if s.len() > 0 {
        let t = s.drop_last();
        assert forall|i: int| 0 <= i < t.len() implies #[trigger] p(t[i]) by {
            assert(t[i] == s[i]);
        }
        lemma_filter_all(t, p);
        assert(p(s.last()));
        assert(t.push(s.last()) =~= s);
    }
}

/// A filter that no element passes keeps nothing.
pub proof fn lemma_filter_none<A>(s: Seq<A>, p: spec_fn(A) -> bool)
    requires
        forall|i: int| 0 <= i < s.len() ==> !#[trigger] p(s[i]),
    ensures
        s.filter(p) == Seq::<A>::empty(),
    decreases s.len(),
{
    reveal(Seq::filter);
    if s.len() > 0 {
        let t = s.drop_last();
        assert forall|i: int| 0 <= i < t.len() implies !#[trigger] p(t[i]) by {
            assert(t[i] == s[i]);
        }
        lemma_filter_none(t, p);
        assert(!p(s.last()));
    }
    assert(s.filter(p) =~= Seq::<A>::empty());
}

/// A filter that exactly one element passes keeps that element.
pub proof fn lemma_filter_single<A>(s: Seq<A>, p: spec_fn(A) -> bool, k: int)
    requires
        0 <= k < s.len(),
        p(s[k]),
        forall|i: int| 0 <= i < s.len() && i != k ==> !#[trigger] p(s[i]),
    ensures
        s.filter(p) == seq![s[k]],
    decreases s.len(),
{
    reveal(Seq::filter);
    let t = s.drop_last();
    if k == s.len() - 1 {
        assert forall|i: int| 0 <= i < t.len() implies !#[trigger] p(t[i]) by {
            assert(t[i] == s[i]);
        }
        lemma_filter_none(t, p);
        assert(s.filter(p) =~= seq![s[k]]);
    } else {
        assert(t[k] == s[k]);
        assert forall|i: int| 0 <= i < t.len() && i != k implies !#[trigger] p(t[i]) by {
            assert(t[i] == s[i]);
        }
        lemma_filter_single(t, p, k);
        assert(!p(s.last()));
    }
}

/// Cells already in strictly increasing order of position stay as they are.
pub proof fn lemma_sort_increasing(s: Seq<BabyBearCell>, by_row: bool)
    requires
        forall|i: int, j: int|
            0 <= i < j < s.len() ==> place_of(#[trigger] s[i], by_row) < place_of(#[trigger] s[j], by_row),
    ensures
        sort_by_place(s, by_row) == s,
    decreases s.len(),
{
    if s.len() > 0 {
        lemma_min_place(s, by_row);
        let m = min_place(s, by_row);
        let i0 = choose|i: int| 0 <= i < s.len() && place_of(s[i], by_row) == m;
        assert(m == place_of(s[0], by_row)) by {
            if i0 > 0 {
                assert(place_of(s[0], by_row) < place_of(s[i0], by_row));
            }
        }
        let t = s.drop_first();
        assert(seq![s[0]] + t =~= s);
        s.drop_first().lemma_filter_prepend(s[0], placed_at(by_row, m));
        s.drop_first().lemma_filter_prepend(s[0], placed_elsewhere(by_row, m));
        assert forall|i: int| 0 <= i < t.len() implies !#[trigger] placed_at(by_row, m)(t[i]) by {
            assert(t[i] == s[i + 1]);
        }
        assert forall|i: int| 0 <= i < t.len() implies #[trigger] placed_elsewhere(by_row, m)(t[i]) by {
            assert(t[i] == s[i + 1]);
        }
        lemma_filter_none(t, placed_at(by_row, m));
        lemma_filter_all(t, placed_elsewhere(by_row, m));
        assert forall|i: int, j: int| 0 <= i < j < t.len() implies place_of(#[trigger] t[i], by_row)
            < place_of(#[trigger] t[j], by_row) by {
            assert(t[i] == s[i + 1]);
            assert(t[j] == s[j + 1]);
        }
        lemma_sort_increasing(t, by_row);
        assert(s.filter(placed_at(by_row, m)) =~= seq![s[0]]);
        assert(s.filter(placed_elsewhere(by_row, m)) =~= t);
    }
}

/// Index facts for cell `c * rows + r` of a square.
pub proof fn lemma_grid_index(c: int, r: int, rows: int)
    requires
        0 <= c,
        0 <= r < rows,
    ensures
        (c * rows + r) / rows == c,
        (c * rows + r) % rows == r,
{
    lemma_fundamental_div_mod_converse(c * rows + r, rows, c, r);
}

/// A square of `cols` columns is the square of `cols - 1` columns followed
/// by the last column.
pub proof fn lemma_grid_split(vals: Seq<BabyBear>, cols: nat, rows: nat)
    requires
        cols >= 1,
    ensures
        grid_cells(vals, cols, rows) == grid_cells(vals, (cols - 1) as nat, rows) + column_cells(
            vals,
            cols - 1,
            rows as nat,
        ),
{
    let a = grid_cells(vals, (cols - 1) as nat, rows);
    let b = column_cells(vals, cols - 1, rows);
    let g = grid_cells(vals, cols, rows);
    assert(cols * rows == (cols - 1) * rows + rows) by {
        lemma_mul_is_distributive_sub_other_way(rows as int, cols as int, 1);
    }
    assert forall|k: int| 0 <= k < g.len() implies #[trigger] g[k] == (a + b)[k] by {
        if k >= (cols - 1) * rows {
            let r = k - (cols - 1) * rows;
            lemma_grid_index(cols - 1, r, rows as int);
        }
    }
    assert(g =~= a + b);
}

/// Every cell of a square of `cols` columns lies in a column below `cols`.
pub proof fn lemma_grid_columns_below(vals: Seq<BabyBear>, cols: nat, rows: nat, k: int)
    requires
        rows > 0,
        0 <= k < cols * rows,
    ensures
        0 <= k / (rows as int) < cols,
{
    lemma_div_pos_is_pos(k, rows as int);
    lemma_div_is_ordered(k, (cols * rows) as int, rows as int);
    lemma_div_by_multiple(cols as int, rows as int);
    if k / (rows as int) == cols {
        lemma_fundamental_div_mod(k, rows as int);
        lemma_mul_is_commutative(cols as int, rows as int);
    }
}

/// Row `r` of a square filled column by column holds cell `(c, r)` for every
/// column `c`, in order.
pub proof fn lemma_grid_row_filter(vals: Seq<BabyBear>, cols: nat, rows: nat, r: int)
    requires
        0 <= r < rows,
        rows <= usize::MAX,
        cols <= usize::MAX,
    ensures
        grid_cells(vals, cols, rows).filter(on_line(true, r as usize)) == row_cells(vals, cols, rows, r),
    decreases cols,
{
    let p = on_line(true, r as usize);
    if cols == 0 {
        lemma_filter_none(grid_cells(vals, cols, rows), p);
        assert(row_cells(vals, cols, rows, r) =~= Seq::<BabyBearCell>::empty());
    } else {
        lemma_grid_split(vals, cols, rows);
        lemma_grid_row_filter(vals, (cols - 1) as nat, rows, r);
        let col = column_cells(vals, cols - 1, rows);
        assert forall|i: int| 0 <= i < col.len() && i != r implies !#[trigger] p(col[i]) by {
        }
        lemma_filter_single(col, p, r);
        Seq::filter_distributes_over_add(grid_cells(vals, (cols - 1) as nat, rows), col, p);
        assert(row_cells(vals, cols, rows, r) =~= row_cells(vals, (cols - 1) as nat, rows, r).push(
            col[r],
        ));
        assert(row_cells(vals, (cols - 1) as nat, rows, r) + seq![col[r]] =~= row_cells(
            vals,
            (cols - 1) as nat,
            rows,
            r,
        ).push(col[r]));
    }
}

/// Column `c` of a square filled column by column holds its cells from top
/// to bottom.
pub proof fn lemma_grid_column_filter(vals: Seq<BabyBear>, cols: nat, rows: nat, c: int)
    requires
        0 <= c < cols,
        rows <= usize::MAX,
        cols <= usize::MAX,
    ensures
        grid_cells(vals, cols, rows).filter(on_line(false, c as usize)) == column_cells(vals, c, rows),
    decreases cols,
{
    let p = on_line(false, c as usize);
    lemma_grid_split(vals, cols, rows);
    let prev = grid_cells(vals, (cols - 1) as nat, rows);
    let col = column_cells(vals, cols - 1, rows);
    Seq::filter_distributes_over_add(prev, col, p);
    if c == cols - 1 {
        assert forall|i: int| 0 <= i < prev.len() implies !#[trigger] p(prev[i]) by {
            lemma_grid_columns_below(vals, (cols - 1) as nat, rows, i);
        }
        lemma_filter_none(prev, p);
        lemma_filter_all(col, p);
        assert(Seq::<BabyBearCell>::empty() + col =~= col);
    } else {
        lemma_grid_column_filter(vals, (cols - 1) as nat, rows, c);
        assert forall|i: int| 0 <= i < col.len() implies !#[trigger] p(col[i]) by {
        }
        lemma_filter_none(col, p);
        assert(column_cells(vals, c, rows) + Seq::<BabyBearCell>::empty() =~= column_cells(
            vals,
            c,
            rows,
        ));
    }
}

/// Reading row `r` of a square filled column by column gives
/// `vals[c * rows + r]` for every column `c`, in order.
pub proof fn lemma_grid_row_values(vals: Seq<BabyBear>, cols: nat, rows: nat, r: int)
    requires
        0 <= r < rows,
        rows <= usize::MAX,
        cols <= usize::MAX,
    ensures
        line_values(grid_cells(vals, cols, rows), true, r as usize) == Seq::new(
            cols,
            |c: int| vals[c * rows + r],
        ),
{
    lemma_grid_row_filter(vals, cols, rows, r);
    let s = row_cells(vals, cols, rows, r);
    lemma_sort_increasing(s, true);
    assert(cell_values(s) =~= Seq::new(cols, |c: int| vals[c * rows + r]));
}

/// Reading column `c` of a square filled column by column gives
/// `vals[c * rows + r]` for every row `r`, in order.
pub proof fn lemma_grid_column_values(vals: Seq<BabyBear>, cols: nat, rows: nat, c: int)
    requires
        0 <= c < cols,
        rows <= usize::MAX,
        cols <= usize::MAX,
    ensures
        line_values(grid_cells(vals, cols, rows), false, c as usize) == Seq::new(
            rows,
            |r: int| vals[c * rows + r],
        ),
{
    lemma_grid_column_filter(vals, cols, rows, c);
    let s = column_cells(vals, c, rows);
    lemma_sort_increasing(s, false);
    assert(cell_values(s) =~= Seq::new(rows, |r: int| vals[c * rows + r]));
}

} // verus!
