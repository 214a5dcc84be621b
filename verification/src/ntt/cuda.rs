//! The host side of the GPU transform: the buffer of polynomials laid end to
//! end that the kernels work on, and what a launch hands them.

use vstd::prelude::*;
use vstd::arithmetic::div_mod::*;
use vstd::arithmetic::mul::*;
use crate::field::babybear::{BabyBear, BABYBEAR_PRIME};
use super::babybear_roots::babybear_roots;
use super::cpu::roots_of_unity;
use super::transform::{ints, is_pow2};

verus! {

/// `cols` polynomials of `rows` canonical field elements each, laid end to
/// end: element `(row, col)` is at `col * rows + row`, so column `col` is
/// the slice `[col * rows, (col + 1) * rows)`.
pub struct PinnedSquare {
    data: Vec<u32>,
    rows: usize,
    cols: usize,
}

impl PinnedSquare {
    /// The buffer holds exactly `rows * cols` values.
    pub closed spec fn wf(self) -> bool {
        self.data.len() == self.rows * self.cols
    }

    /// The number of rows (the length of a polynomial).
    pub closed spec fn spec_rows(self) -> nat {
        self.rows as nat
    }

    /// The number of columns (polynomials).
    pub closed spec fn spec_cols(self) -> nat {
        self.cols as nat
    }

    /// The values, column after column.
    pub closed spec fn values(self) -> Seq<u32> {
        self.data@
    }

    /// A valid square holds `rows * cols` values.
    pub proof fn lemma_shape(self)
        requires
            self.wf(),
        ensures
            self.values().len() == self.spec_rows() * self.spec_cols(),
    {
    }

    /// A zero-filled square.
    pub fn new(rows: usize, cols: usize) -> (r: Result<Self, String>)
        requires
            rows * cols <= usize::MAX,
        ensures
            r is Ok,
            r->Ok_0.wf(),
            r->Ok_0.spec_rows() == rows,
            r->Ok_0.spec_cols() == cols,
            r->Ok_0.values() == Seq::new((rows * cols) as nat, |i: int| 0u32),
    {
        let count = rows * cols;
        let mut data: Vec<u32> = Vec::new();
        let mut i: usize = 0;
        while i < count
            invariant
                i <= count,
                data@ == Seq::new(i as nat, |k: int| 0u32),
            decreases count - i,
        {
            data.push(0);
            assert(data@ =~= Seq::new((i + 1) as nat, |k: int| 0u32));
            i += 1;
        }
        Ok(Self { data, rows, cols })
    }

    /// The number of rows.
    pub fn rows(&self) -> (r: usize)
        ensures
            r == self.spec_rows(),
    {
        self.rows
    }

    /// The number of columns.
    pub fn cols(&self) -> (r: usize)
        ensures
            r == self.spec_cols(),
    {
        self.cols
    }

    /// Stores the value at `(row, col)`.
    pub fn set(&mut self, row: usize, col: usize, value: BabyBear)
        requires
            old(self).wf(),
            col * old(self).spec_rows() + row < old(self).spec_rows() * old(self).spec_cols(),
        ensures
            final(self).wf(),
            final(self).spec_rows() == old(self).spec_rows(),
            final(self).spec_cols() == old(self).spec_cols(),
            final(self).values().len() == final(self).spec_rows() * final(self).spec_cols(),
            final(self).values() == old(self).values().update(
                col * old(self).spec_rows() + row,
                value.value,
            ),
    {
        let i = col * self.rows + row;
        self.data.set(i, value.value);
    }

    /// The value at `(row, col)`, reduced mod p.
    pub fn get(&self, row: usize, col: usize) -> (r: BabyBear)
        requires
            self.wf(),
            col * self.spec_rows() + row < self.spec_rows() * self.spec_cols(),
        ensures
            r.value == self.values()[col * self.spec_rows() + row] % BABYBEAR_PRIME,
    {
        BabyBear::new(self.data[col * self.rows + row] as u64)
    }

    /// One whole polynomial: column `col` (empty when there are no rows).
    pub fn column(&self, col: usize) -> (r: &[u32])
        requires
            self.wf(),
            col < self.spec_cols() || (self.spec_rows() == 0 && col < usize::MAX),
        ensures
            r.len() == self.spec_rows(),
            r@ == self.values().subrange(
                col * self.spec_rows(),
                (col + 1) * self.spec_rows(),
            ),
    {
        proof {
            if self.rows == 0 {
                lemma_mul_basics(col as int);
                lemma_mul_basics(col as int + 1);
            } else {
                lemma_mul_inequality(col as int + 1, self.cols as int, self.rows as int);
            }
            lemma_mul_is_distributive_add_other_way(self.rows as int, col as int, 1);
            lemma_mul_is_commutative(self.rows as int, self.cols as int);
        }
        let lo = col * self.rows;
        let hi = (col + 1) * self.rows;
        &self.data.as_slice()[lo..hi]
    }

    /// Row `row` gathered across every polynomial, each value reduced mod p
    /// (empty when there are no polynomials).
    pub fn row(&self, row: usize) -> (r: Vec<BabyBear>)
        requires
            self.wf(),
            self.spec_cols() == 0 || row < self.spec_rows(),
        ensures
            r.len() == self.spec_cols(),
            forall|c: int|
                0 <= c < self.spec_cols() ==> #[trigger] r[c].value == self.values()[c
                    * self.spec_rows() + row] % BABYBEAR_PRIME,
    {
        let mut r: Vec<BabyBear> = Vec::new();
        let mut col: usize = 0;
        while col < self.cols
            invariant
                col <= self.cols,
                self.cols == 0 || row < self.rows,
                self.data.len() == self.rows * self.cols,
                r.len() == col,
                forall|c: int|
                    0 <= c < col ==> #[trigger] r[c].value == self.data@[c * self.rows + row]
                        % BABYBEAR_PRIME,
            decreases self.cols - col,
        {
            proof {
                lemma_mul_inequality(col as int + 1, self.cols as int, self.rows as int);
                lemma_mul_is_distributive_add_other_way(self.rows as int, col as int, 1);
                lemma_mul_is_commutative(self.rows as int, self.cols as int);
            }
            r.push(self.get(row, col));
            col += 1;
        }
        r
    }

    /// All the values, column after column.
    pub fn as_slice(&self) -> (r: &[u32])
        ensures
            r@ == self.values(),
    {
        self.data.as_slice()
    }

    /// Stores `x` at position `i` of the buffer.
    pub fn set_raw(&mut self, i: usize, x: u32)
        requires
            old(self).wf(),
            i < old(self).values().len(),
        ensures
            final(self).wf(),
            final(self).spec_rows() == old(self).spec_rows(),
            final(self).spec_cols() == old(self).spec_cols(),
            final(self).values() == old(self).values().update(i as int, x),
    {
        self.data.set(i, x);
    }
}

/// The square reads as its values, column after column.
impl core::ops::Deref for PinnedSquare {
    type Target = [u32];

    fn deref(&self) -> (r: &[u32])
        ensures
            r@ == self.values(),
    {
        self.data.as_slice()
    }
}

/// Cell `(row, col)` of a square with `rows` rows and `cols` columns lies
/// at `col * rows + row`, below `rows * cols`.
pub proof fn lemma_cell_index(rows: nat, cols: nat, row: nat, col: nat)
    requires
        row < rows,
        col < cols,
    ensures
        col * rows + row < rows * cols,
{
    lemma_mul_inequality(col as int + 1, cols as int, rows as int);
    lemma_mul_is_distributive_add_other_way(rows as int, col as int, 1);
    lemma_mul_is_commutative(rows as int, cols as int);
}

/// What a GPU transform launch hands the kernel for `len` values laid out
/// as polynomials of `stride` values, the first `n` of each transformed:
/// the powers of the `n`-th root of unity and the number of polynomials.
pub fn launch_plan(len: usize, n: usize, stride: usize) -> (r: (Vec<u32>, usize))
    requires
        is_pow2(n as nat),
        (BABYBEAR_PRIME - 1) % (n as int) == 0,
        stride >= n,
        stride > 0,
        len % stride == 0,
    ensures
        ints(r.0@) == babybear_roots(n as nat),
        r.1 == len / stride,
{
    proof {
        super::babybear_roots::lemma_babybear_least_generator();
        crate::math::primes::lemma_divisor_le(n as int, (BABYBEAR_PRIME - 1) as int);
        super::transform::lemma_pow2_pos(n as nat);
    }
    let polys = len / stride;
    let roots = roots_of_unity(n as u32, BABYBEAR_PRIME);
    assert(ints(roots@) =~= babybear_roots(n as nat));
    (roots, polys)
}

} // verus!
