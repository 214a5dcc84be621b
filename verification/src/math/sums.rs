//! Finite sums `f(0) + ... + f(n-1)` over integers and the rearrangements that
//! the transform proofs use.

use vstd::prelude::*;
use vstd::arithmetic::div_mod::*;
use vstd::arithmetic::mul::*;

verus! {

/// `f(0) + f(1) + ... + f(n - 1)`.
pub open spec fn sum(n: nat, f: spec_fn(int) -> int) -> int
    decreases n,
{
    if n == 0 {
        0
    } else {
        sum((n - 1) as nat, f) + f(n - 1)
    }
}

/// Sums of functions that agree on `[0, n)` are equal.
pub proof fn lemma_sum_ext(n: nat, f: spec_fn(int) -> int, g: spec_fn(int) -> int)
    requires
        forall|i: int| 0 <= i < n ==> #[trigger] f(i) == g(i),
    ensures
        sum(n, f) == sum(n, g),
    decreases n,
{
    if n > 0 {
        lemma_sum_ext((n - 1) as nat, f, g);
    }
}

/// The sum of a pointwise sum.
pub proof fn lemma_sum_add(n: nat, f: spec_fn(int) -> int, g: spec_fn(int) -> int)
    ensures
        sum(n, |i: int| f(i) + g(i)) == sum(n, f) + sum(n, g),
    decreases n,
{
    if n > 0 {
        lemma_sum_add((n - 1) as nat, f, g);
    }
}

/// The sum of a pointwise sum, `h = f + g` on `[0, n)`.
pub proof fn lemma_sum_plus(n: nat, f: spec_fn(int) -> int, g: spec_fn(int) -> int, h: spec_fn(int) -> int)
    requires
        forall|i: int| 0 <= i < n ==> #[trigger] h(i) == f(i) + g(i),
    ensures
        sum(n, h) == sum(n, f) + sum(n, g),
{
    lemma_sum_add(n, f, g);
    lemma_sum_ext(n, h, |i: int| f(i) + g(i));
}

/// A constant factor comes out of a sum: `g = c * f` on `[0, n)`.
pub proof fn lemma_sum_scale(n: nat, f: spec_fn(int) -> int, g: spec_fn(int) -> int, c: int)
    requires
        forall|i: int| 0 <= i < n ==> #[trigger] g(i) == c * f(i),
    ensures
        sum(n, g) == c * sum(n, f),
    decreases n,
{
    if n > 0 {
        lemma_sum_scale((n - 1) as nat, f, g, c);
        lemma_mul_is_distributive_add(c, sum((n - 1) as nat, f), f(n - 1));
    }
}

/// A sum over `2n` terms is the sum of the first `n` and of the last `n`
/// (`hi(i) = f(i + n)`).
pub proof fn lemma_sum_split(n: nat, f: spec_fn(int) -> int, hi: spec_fn(int) -> int)
    requires
        forall|i: int| 0 <= i < n ==> #[trigger] hi(i) == f(i + n),
    ensures
        sum(2 * n, f) == sum(n, f) + sum(n, hi),
{
    lemma_sum_halves(n, f);
    lemma_sum_ext(n, hi, |i: int| f(i + n));
}

/// A sum over `2n` terms is the sum of the first `n` and of the last `n`.
pub proof fn lemma_sum_halves(n: nat, f: spec_fn(int) -> int)
    ensures
        sum(2 * n, f) == sum(n, f) + sum(n, |i: int| f(i + n)),
    decreases n,
{
    if n > 0 {
        lemma_sum_halves((n - 1) as nat, f);
        // sum(2n, f) = sum(2n-2, f) + f(2n-2) + f(2n-1)
        lemma_sum_shift_front(n, f);
    }
}

/// Moving the first term of the upper half to the end of the lower half.
proof fn lemma_sum_shift_front(n: nat, f: spec_fn(int) -> int)
    requires
        n > 0,
        sum((2 * (n - 1)) as nat, f) == sum((n - 1) as nat, f) + sum(
            (n - 1) as nat,
            |i: int| f(i + (n - 1)),
        ),
    ensures
        sum(2 * n, f) == sum(n, f) + sum(n, |i: int| f(i + n)),
{
    let g = |i: int| f(i + n);
    let g1 = |i: int| f(i + (n - 1));
    // sum(n, g) = sum(n - 1, g1 shifted by one) ...
    lemma_sum_drop_first(n, g1);
    lemma_sum_ext((n - 1) as nat, |i: int| g1(i + 1), g);
    assert(sum(n, g1) == g1(0) + sum((n - 1) as nat, g));
    // sum(n, g1) = sum(n - 1, g1) + g1(n - 1)
    assert(sum(n, g1) == sum((n - 1) as nat, g1) + f(2 * n - 2));
    // sum(n, g) = sum(n - 1, g) + f(2n - 1)
    assert(sum(n, g) == sum((n - 1) as nat, g) + f(2 * n - 1));
    assert(sum(2 * n, f) == sum((2 * n - 1) as nat, f) + f(2 * n - 1));
    assert(sum((2 * n - 1) as nat, f) == sum((2 * n - 2) as nat, f) + f(2 * n - 2));
}

/// The first term of a sum, then the rest.
pub proof fn lemma_sum_drop_first(n: nat, f: spec_fn(int) -> int)
    requires
        n > 0,
    ensures
        sum(n, f) == f(0) + sum((n - 1) as nat, |i: int| f(i + 1)),
    decreases n,
{
    let g = |i: int| f(i + 1);
    if n > 1 {
        lemma_sum_drop_first((n - 1) as nat, f);
        assert(sum((n - 1) as nat, f) == f(0) + sum((n - 2) as nat, g));
        assert(sum((n - 1) as nat, g) == sum((n - 2) as nat, g) + g(n - 2));
        assert(g(n - 2) == f(n - 1));
        assert(sum(n, f) == sum((n - 1) as nat, f) + f(n - 1));
        assert(sum(n, f) == f(0) + sum((n - 1) as nat, g));
    } else {
        assert(sum(n, f) == sum(0, f) + f(0));
        assert(sum(0, g) == 0);
    }
}

/// A sum over `2n` terms is the sum of the even-indexed and of the
/// odd-indexed terms.
pub proof fn lemma_sum_even_odd(n: nat, f: spec_fn(int) -> int)
    ensures
        sum(2 * n, f) == sum(n, |i: int| f(2 * i)) + sum(n, |i: int| f(2 * i + 1)),
    decreases n,
{
    if n > 0 {
        lemma_sum_even_odd((n - 1) as nat, f);
        assert(sum(2 * n, f) == sum((2 * n - 1) as nat, f) + f(2 * n - 1));
        assert(sum((2 * n - 1) as nat, f) == sum((2 * n - 2) as nat, f) + f(2 * n - 2));
    }
}

/// The even/odd split with the two halves given as functions
/// (`fe(i) = f(2i)`, `fo(i) = f(2i + 1)`).
pub proof fn lemma_sum_parity(
    n: nat,
    f: spec_fn(int) -> int,
    fe: spec_fn(int) -> int,
    fo: spec_fn(int) -> int,
)
    requires
        forall|i: int| 0 <= i < n ==> #[trigger] fe(i) == f(2 * i),
        forall|i: int| 0 <= i < n ==> #[trigger] fo(i) == f(2 * i + 1),
    ensures
        sum(2 * n, f) == sum(n, fe) + sum(n, fo),
{
    lemma_sum_even_odd(n, f);
    lemma_sum_ext(n, fe, |i: int| f(2 * i));
    lemma_sum_ext(n, fo, |i: int| f(2 * i + 1));
}

/// Sums of termwise congruent functions are congruent.
pub proof fn lemma_sum_mod(n: nat, f: spec_fn(int) -> int, g: spec_fn(int) -> int, m: int)
    requires
        m > 0,
        forall|i: int| 0 <= i < n ==> #[trigger] f(i) % m == g(i) % m,
    ensures
        sum(n, f) % m == sum(n, g) % m,
    decreases n,
{
    if n > 0 {
        lemma_sum_mod((n - 1) as nat, f, g, m);
        lemma_add_mod_noop(sum((n - 1) as nat, f), f(n - 1), m);
        lemma_add_mod_noop(sum((n - 1) as nat, g), g(n - 1), m);
    }
}

/// Exchanging the order of a double sum: `rows(i)` sums `f(i, j)` over `j`,
/// `cols(j)` sums it over `i`.
pub proof fn lemma_sum_swap(
    n: nat,
    k: nat,
    f: spec_fn(int, int) -> int,
    rows: spec_fn(int) -> int,
    cols: spec_fn(int) -> int,
)
    requires
        forall|i: int| 0 <= i < n ==> #[trigger] rows(i) == sum(k, |j: int| f(i, j)),
        forall|j: int| 0 <= j < k ==> #[trigger] cols(j) == sum(n, |i: int| f(i, j)),
    ensures
        sum(n, rows) == sum(k, cols),
    decreases n,
{
    if n == 0 {
        lemma_sum_zero(k, cols);
    } else {
        let a = |j: int| sum((n - 1) as nat, |i: int| f(i, j));
        let b = |j: int| f(n - 1, j);
        lemma_sum_swap((n - 1) as nat, k, f, rows, a);
        assert(sum(n, rows) == sum((n - 1) as nat, rows) + rows(n - 1));
        assert(rows(n - 1) == sum(k, b));
        lemma_sum_add(k, a, b);
        assert forall|j: int| 0 <= j < k implies #[trigger] cols(j) == (|j: int| a(j) + b(j))(j) by {
            assert(sum(n, |i: int| f(i, j)) == sum((n - 1) as nat, |i: int| f(i, j)) + f(n - 1, j));
        }
        lemma_sum_ext(k, cols, |j: int| a(j) + b(j));
    }
}

/// A sum whose only nonzero term is at `k` is that term.
pub proof fn lemma_sum_single(n: nat, f: spec_fn(int) -> int, k: int)
    requires
        0 <= k < n,
        forall|i: int| 0 <= i < n && i != k ==> #[trigger] f(i) == 0,
    ensures
        sum(n, f) == f(k),
    decreases n,
{
    if n - 1 > k {
        lemma_sum_single((n - 1) as nat, f, k);
    } else {
        lemma_sum_zero((n - 1) as nat, f);
    }
}

/// A sum of zeros.
pub proof fn lemma_sum_zero(n: nat, f: spec_fn(int) -> int)
    requires
        forall|i: int| 0 <= i < n ==> #[trigger] f(i) == 0,
    ensures
        sum(n, f) == 0,
    decreases n,
{
    if n > 0 {
        lemma_sum_zero((n - 1) as nat, f);
    }
}

} // verus!
