//! What the radix-2 transform computes: evaluation at the powers of a root of
//! unity, and the inverse transform that undoes it.

use vstd::prelude::*;
use vstd::arithmetic::div_mod::*;
use vstd::arithmetic::mul::*;
use vstd::arithmetic::power::*;
use crate::math::powmod::lemma_pow_minus_one;
use crate::math::sums::{
    lemma_sum_mod, lemma_sum_parity, lemma_sum_plus, lemma_sum_scale, lemma_sum_single,
    lemma_sum_split, lemma_sum_swap, lemma_sum_ext, sum,
};
use super::transform::{
    combine, evens, fft, inverse_roots, is_pow2, lemma_evens_odds_len, lemma_fft_len,
    lemma_pow2_even, lemma_pow2_pos, odds, scale_mod,
};

verus! {

/// The terms `v[j] * w^(j*k)` of the evaluation of `v` at `w^k`.
pub open spec fn dft_terms(v: Seq<int>, w: int, k: int) -> spec_fn(int) -> int {
    |j: int| v[j] * pow(w, (j * k) as nat)
}

/// The polynomial with coefficients `v` evaluated at `w^k`:
/// `v[0] + v[1] w^k + v[2] w^(2k) + ...`.
pub open spec fn dft_at(v: Seq<int>, w: int, k: int) -> int {
    sum(v.len(), dft_terms(v, w, k))
}

/// `r` holds the powers `w^0, w^1, ...` reduced mod `m`, and `w^(n/2)` is `-1`
/// mod `m`, so `w` has order exactly `n = r.len()` when `n` is a power of two.
pub open spec fn is_root_table(r: Seq<int>, w: int, m: int) -> bool {
    &&& forall|i: int| 0 <= i < r.len() ==> #[trigger] r[i] == pow(w, i as nat) % m
    &&& r.len() >= 2 ==> pow(w, (r.len() / 2) as nat) % m == m - 1
}

/// Every value lies in `[0, m)`.
pub open spec fn is_reduced(v: Seq<int>, m: int) -> bool {
    forall|i: int| 0 <= i < v.len() ==> 0 <= #[trigger] v[i] < m
}

/// Splitting an evaluation into its even- and odd-indexed coefficients.
proof fn lemma_dft_split(v: Seq<int>, w: int, k: int)
    requires
        v.len() % 2 == 0,
        k >= 0,
    ensures
        dft_at(v, w, k) == dft_at(evens(v), pow(w, 2), k) + pow(w, k as nat) * dft_at(
            odds(v),
            pow(w, 2),
            k,
        ),
{
    let h = (v.len() / 2) as nat;
    let w2 = pow(w, 2);
    let pk = pow(w, k as nat);
    lemma_evens_odds_len(v);
    let f = dft_terms(v, w, k);
    let fe = dft_terms(evens(v), w2, k);
    let go = dft_terms(odds(v), w2, k);
    let fo = |i: int| pk * go(i);
    assert forall|i: int| 0 <= i < h implies #[trigger] fe(i) == f(2 * i) by {
        lemma_mul_nonnegative(i, k);
        lemma_pow_multiplies(w, 2, (i * k) as nat);
        lemma_mul_is_associative(2, i, k);
    }
    assert forall|i: int| 0 <= i < h implies #[trigger] fo(i) == f(2 * i + 1) by {
        lemma_mul_nonnegative(i, k);
        lemma_pow_multiplies(w, 2, (i * k) as nat);
        lemma_mul_is_associative(2, i, k);
        lemma_mul_is_distributive_add_other_way(k, 2 * i, 1);
        lemma_pow_adds(w, k as nat, (2 * (i * k)) as nat);
        lemma_mul_is_associative(pk, odds(v)[i], pow(w2, (i * k) as nat));
        lemma_mul_is_commutative(pk, odds(v)[i]);
        lemma_mul_is_associative(odds(v)[i], pk, pow(w2, (i * k) as nat));
    }
    lemma_sum_parity(h, f, fe, fo);
    lemma_sum_scale(h, go, fo, pk);
}

/// With `w^h = 1` mod `m`, evaluations at `w^k` and `w^(k+h)` agree.
proof fn lemma_dft_shift(v: Seq<int>, w: int, k: int, h: int, m: int)
    requires
        m > 1,
        k >= 0,
        h >= 0,
        pow(w, h as nat) % m == 1,
    ensures
        dft_at(v, w, k + h) % m == dft_at(v, w, k) % m,
{
    let f = dft_terms(v, w, k + h);
    let g = dft_terms(v, w, k);
    assert forall|i: int| 0 <= i < v.len() implies #[trigger] f(i) % m == g(i) % m by {
        lemma_mul_nonnegative(i, k);
        lemma_mul_nonnegative(i, h);
        lemma_mul_is_distributive_add(i, k, h);
        lemma_pow_adds(w, (i * k) as nat, (i * h) as nat);
        lemma_mul_is_commutative(i, h);
        lemma_pow_multiplies(w, h as nat, i as nat);
        lemma_pow_mod_noop(pow(w, h as nat), i as nat, m);
        lemma1_pow(i as nat);
        lemma_small_mod(1, m as nat);
        let a = v[i] * pow(w, (i * k) as nat);
        let b = pow(w, (i * h) as nat);
        assert(b % m == 1);
        lemma_mul_is_associative(v[i], pow(w, (i * k) as nat), b);
        lemma_mul_mod_noop_right(a, b, m);
        lemma_mul_basics(a);
    }
    lemma_sum_mod(v.len(), f, g, m);
}

/// The low half of a combination step, as a congruence.
proof fn lemma_cong_lo(de: int, dout: int, pk: int, m: int)
    requires
        m > 0,
    ensures
        (de % m + ((pk % m) * (dout % m)) % m) % m == (de + pk * dout) % m,
{
    lemma_mul_mod_noop(pk, dout, m);
    lemma_add_mod_noop(de, pk * dout, m);
}

/// The high half of a combination step, as a congruence: `ph` is `-1` mod `m`.
proof fn lemma_cong_hi(a: int, b: int, dek: int, dok: int, pk: int, ph: int, m: int)
    requires
        m > 1,
        dek % m == a % m,
        dok % m == b % m,
        ph % m == m - 1,
    ensures
        ((a % m) + m - ((pk % m) * (b % m)) % m) % m == (dek + (pk * ph) * dok) % m,
{
    let c = pk % m;
    let bb = b % m;
    let x = (pk * ph) * dok;
    // x % m == (-(c * bb)) % m
    lemma_mul_mod_noop(pk * ph, dok, m);
    lemma_mul_mod_noop(pk, ph, m);
    assert((pk * ph) % m == (c * (m - 1)) % m);
    lemma_mul_mod_noop_left(c * (m - 1), bb, m);
    assert(x % m == ((c * (m - 1)) * bb) % m);
    assert((c * (m - 1)) * bb == m * (c * bb) - c * bb) by (nonlinear_arith);
    lemma_mod_multiples_vanish(c * bb, -(c * bb), m);
    assert(x % m == (-(c * bb)) % m);
    // left side
    lemma_mul_mod_noop(pk, b, m);
    lemma_mod_multiples_vanish(1, a % m - (c * bb) % m, m);
    lemma_sub_mod_noop(a % m, c * bb, m);
    lemma_mod_twice(a, m);
    // right side
    lemma_add_mod_noop(dek, x, m);
    lemma_add_mod_noop(a % m, -(c * bb), m);
    lemma_mod_twice(a, m);
}

/// Every second entry of a root table for `w` is a root table for `w^2`.
proof fn lemma_root_table_evens(r: Seq<int>, w: int, m: int)
    requires
        is_pow2(r.len()),
        r.len() >= 2,
        is_root_table(r, w, m),
    ensures
        is_root_table(evens(r), pow(w, 2), m),
{
    let n = r.len();
    lemma_pow2_even(n);
    lemma_evens_odds_len(r);
    let er = evens(r);
    assert forall|i: int| 0 <= i < er.len() implies #[trigger] er[i] == pow(pow(w, 2), i as nat) % m by {
        lemma_pow_multiplies(w, 2, i as nat);
    }
    if er.len() >= 2 {
        lemma_pow2_even(er.len());
        lemma_pow_multiplies(w, 2, (er.len() / 2) as nat);
    }
}

/// The radix-2 transform with a root table for `w` evaluates the polynomial
/// with coefficients `v` at `w^0, w^1, ..., w^(n-1)`.
pub proof fn lemma_fft_is_dft(v: Seq<int>, r: Seq<int>, w: int, m: int)
    requires
        is_pow2(v.len()),
        r.len() == v.len(),
        m > 1,
        is_reduced(v, m),
        is_root_table(r, w, m),
    ensures
        fft(v, r, m).len() == v.len(),
        forall|k: int| 0 <= k < v.len() ==> #[trigger] fft(v, r, m)[k] == dft_at(v, w, k) % m,
    decreases v.len(),
{
    let n = v.len();
    lemma_fft_len(v, r, m);
    if n == 1 {
        assert(dft_at(v, w, 0) == v[0]) by {
            lemma_pow0(w);
            assert(dft_terms(v, w, 0)(0) == v[0] * pow(w, 0));
            assert(sum(1, dft_terms(v, w, 0)) == sum(0, dft_terms(v, w, 0)) + dft_terms(v, w, 0)(0));
        }
        lemma_small_mod(v[0] as nat, m as nat);
    } else {
        let h = (n / 2) as int;
        let w2 = pow(w, 2);
        lemma_pow2_even(n);
        lemma_evens_odds_len(v);
        lemma_evens_odds_len(r);
        let ev = evens(v);
        let od = odds(v);
        let er = evens(r);
        lemma_root_table_evens(r, w, m);
        lemma_fft_is_dft(ev, er, w2, m);
        lemma_fft_is_dft(od, er, w2, m);
        let e = fft(ev, er, m);
        let o = fft(od, er, m);
        // w^n = 1 mod m, so (w^2)^h = 1 mod m
        lemma_pow_minus_one(pow(w, h as nat), 2, m);
        lemma_pow_multiplies(w, h as nat, 2);
        lemma_pow_multiplies(w, 2, h as nat);
        assert(pow(w2, h as nat) % m == 1);
        assert forall|k: int| 0 <= k < n implies #[trigger] fft(v, r, m)[k] == dft_at(v, w, k) % m by {
            lemma_dft_split(v, w, k);
            if k < h {
                lemma_cong_lo(dft_at(ev, w2, k), dft_at(od, w2, k), pow(w, k as nat), m);
            } else {
                let k1 = k - h;
                lemma_dft_shift(ev, w2, k1, h, m);
                lemma_dft_shift(od, w2, k1, h, m);
                lemma_pow_adds(w, k1 as nat, h as nat);
                lemma_cong_hi(
                    dft_at(ev, w2, k1),
                    dft_at(od, w2, k1),
                    dft_at(ev, w2, k),
                    dft_at(od, w2, k),
                    pow(w, k1 as nat),
                    pow(w, h as nat),
                    m,
                );
            }
        }
    }
}

/// The terms `w^(j*d)` of a geometric sum.
pub open spec fn geo_terms(w: int, d: int) -> spec_fn(int) -> int {
    |j: int| pow(w, (j * d) as nat)
}

/// `(2a) mod (2b) = 2 (a mod b)`.
proof fn lemma_mod_double(a: int, b: int)
    requires
        a >= 0,
        b > 0,
    ensures
        (2 * a) % (2 * b) == 2 * (a % b),
{
    lemma_fundamental_div_mod(a, b);
    lemma_mod_bound(a, b);
    let q = a / b;
    assert(2 * a == q * (2 * b) + 2 * (a % b)) by {
        lemma_mul_is_associative(q, 2, b);
        lemma_mul_is_commutative(q, 2);
        lemma_mul_is_associative(2, q, b);
        lemma_mul_is_commutative(b, q);
    }
    lemma_fundamental_div_mod_converse(2 * a, 2 * b, q, 2 * (a % b));
}

/// The sum of `w^(j*d)` over `j < n` is `n` when `n` divides `d` and 0
/// otherwise, modulo `m`, for `w` of order `n` (`w^(n/2) = -1`).
pub proof fn lemma_geometric_sum(n: nat, w: int, d: int, m: int)
    requires
        is_pow2(n),
        m > 1,
        d >= 0,
        n >= 2 ==> pow(w, (n / 2) as nat) % m == m - 1,
    ensures
        sum(n, geo_terms(w, d)) % m == (if d % (n as int) == 0 { n as int % m } else { 0 }),
    decreases n,
{
    let t = geo_terms(w, d);
    if n == 1 {
        assert(sum(1, t) == sum(0, t) + t(0));
        lemma_pow0(w);
        lemma_small_mod(1, m as nat);
    } else {
        lemma_pow2_even(n);
        let h = (n / 2) as nat;
        let ph = pow(w, h);
        let pw = pow(w, (h * d) as nat);
        let hi = |i: int| pw * t(i);
        lemma_mul_nonnegative(h as int, d);
        assert forall|i: int| 0 <= i < h implies #[trigger] hi(i) == t(i + h) by {
            lemma_mul_nonnegative(i, d);
            lemma_mul_is_distributive_add_other_way(d, i, h as int);
            lemma_pow_adds(w, (i * d) as nat, (h * d) as nat);
            lemma_mul_is_commutative(pw, pow(w, (i * d) as nat));
        }
        lemma_sum_split(h, t, hi);
        lemma_sum_scale(h, t, hi, pw);
        let th = sum(h, t);
        assert(sum(n, t) == (1 + pw) * th) by {
            lemma_mul_is_distributive_add_other_way(th, 1, pw);
        }
        lemma_pow_multiplies(w, h, d as nat);
        lemma_pow_minus_one(ph, d as nat, m);
        lemma_mul_mod_noop_left(1 + pw, th, m);
        lemma_add_mod_noop(1, pw, m);
        lemma_small_mod(1, m as nat);
        if d % 2 == 1 {
            lemma_mod_self_0(m);
            assert((1 + pw) % m == 0);
            lemma_mul_basics(th);
            lemma_small_mod(0, m as nat);
            lemma_mod_mod(d, 2, h as int);
            lemma_mul_is_commutative(2, h as int);
        } else {
            let d2 = d / 2;
            let w2 = pow(w, 2);
            let t2 = geo_terms(w2, d2);
            assert forall|i: int| 0 <= i < h implies #[trigger] t(i) == t2(i) by {
                lemma_mul_nonnegative(i, d2);
                lemma_mul_is_associative(i, 2, d2);
                lemma_mul_is_commutative(i, 2);
                lemma_mul_is_associative(2, i, d2);
                lemma_pow_multiplies(w, 2, (i * d2) as nat);
            }
            lemma_sum_ext(h, t, t2);
            if h >= 2 {
                lemma_pow2_even(h);
                lemma_pow_multiplies(w, 2, (h / 2) as nat);
            }
            lemma_geometric_sum(h, w2, d2, m);
            assert((1 + pw) % m == 2int % m);
            lemma_mul_mod_noop_left(2, th, m);
            lemma_mul_mod_noop_right(2, th, m);
            lemma_mod_double(d2, h as int);
            if d2 % (h as int) == 0 {
                lemma_mul_mod_noop_right(2, h as int, m);
            } else {
                lemma_small_mod(0, m as nat);
            }
        }
    }
}

#[verifier::spinoff_prover]
/// The inverse twiddles form a root table for `w^(n-1)`, the inverse of `w`.
pub proof fn lemma_inverse_root_table(r: Seq<int>, w: int, m: int)
    requires
        is_pow2(r.len()),
        m > 1,
        is_root_table(r, w, m),
    ensures
        is_root_table(inverse_roots(r), pow(w, (r.len() - 1) as nat), m),
{
    let n = r.len();
    lemma_pow2_pos(n);
    let u = pow(w, (n - 1) as nat);
    let ir = inverse_roots(r);
    // w^n = 1 mod m
    if n >= 2 {
        lemma_pow2_even(n);
        lemma_pow_minus_one(pow(w, (n / 2) as nat), 2, m);
        lemma_pow_multiplies(w, (n / 2) as nat, 2);
    } else {
        lemma_pow1(w);
    }
    assert(n >= 2 ==> pow(w, n) % m == 1);
    assert forall|i: int| 0 <= i < n implies #[trigger] ir[i] == pow(u, i as nat) % m by {
        lemma_pow_multiplies(w, (n - 1) as nat, i as nat);
        if i == 0 {
            lemma_pow0(w);
            lemma_pow0(u);
        } else {
            // (n-1) i = (n - i) + n (i - 1)
            assert((n - 1) * i == (n - i) + n * (i - 1)) by (nonlinear_arith);
            lemma_mul_nonnegative(n as int, i - 1);
            let a = pow(w, (n - i) as nat);
            let b = pow(w, (n * (i - 1)) as nat);
            lemma_pow_adds(w, (n - i) as nat, (n * (i - 1)) as nat);
            assert(pow(u, i as nat) == a * b);
            lemma_pow_multiplies(w, n, (i - 1) as nat);
            assert(b == pow(pow(w, n), (i - 1) as nat));
            lemma_pow_mod_noop(pow(w, n), (i - 1) as nat, m);
            lemma1_pow((i - 1) as nat);
            lemma_small_mod(1, m as nat);
            assert(b % m == 1);
            lemma_mul_mod_noop_right(a, b, m);
            lemma_mul_basics(a);
            assert(ir[i] == r[n - i]);
        }
    }
    if n >= 2 {
        // u^(n/2) = (w^(n/2))^(n-1) = (-1)^(n-1) = -1
        lemma_pow_multiplies(w, (n - 1) as nat, (n / 2) as nat);
        lemma_mul_is_commutative((n - 1) as int, (n / 2) as int);
        lemma_pow_multiplies(w, (n / 2) as nat, (n - 1) as nat);
        lemma_pow_minus_one(pow(w, (n / 2) as nat), (n - 1) as nat, m);
    }
}

/// `i + (n-1) k` is a multiple of `n` exactly when `i == k`, for `i, k < n`.
proof fn lemma_exponent_multiple(i: int, k: int, n: int)
    requires
        0 <= i < n,
        0 <= k < n,
    ensures
        (i + (n - 1) * k) % n == 0 <==> i == k,
{
    assert(i + (n - 1) * k == (i - k) + n * k) by (nonlinear_arith);
    lemma_mod_multiples_vanish(k, i - k, n);
    lemma_mul_is_commutative(n, k);
    if i >= k {
        lemma_small_mod((i - k) as nat, n as nat);
    } else {
        lemma_mod_multiples_vanish(1, i - k, n);
        lemma_small_mod((n + i - k) as nat, n as nat);
    }
}

/// Evaluating the evaluations of `v` at the powers of `w^(n-1)` gives `n * v`.
proof fn lemma_double_dft(v: Seq<int>, x: Seq<int>, w: int, m: int, k: int)
    requires
        is_pow2(v.len()),
        x.len() == v.len(),
        m > 1,
        0 <= k < v.len(),
        v.len() >= 2 ==> pow(w, (v.len() / 2) as nat) % m == m - 1,
        forall|j: int| 0 <= j < v.len() ==> #[trigger] x[j] == dft_at(v, w, j) % m,
    ensures
        dft_at(x, pow(w, (v.len() - 1) as nat), k) % m == (v.len() * v[k]) % m,
{
    let n = v.len();
    lemma_pow2_pos(n);
    let u = pow(w, (n - 1) as nat);
    let f = |i: int, j: int| v[i] * pow(w, (i * j) as nat) * pow(u, (j * k) as nat);
    let outer = dft_terms(x, u, k);
    let exact = |j: int| dft_at(v, w, j) * pow(u, (j * k) as nat);
    // x[j] u^(jk) = dft(v, w, j) u^(jk) mod m
    assert forall|j: int| 0 <= j < n implies #[trigger] outer(j) % m == exact(j) % m by {
        lemma_mul_mod_noop_left(dft_at(v, w, j), pow(u, (j * k) as nat), m);
    }
    lemma_sum_mod(n, outer, exact, m);
    // dft(v, w, j) u^(jk) = sum_i f(i, j)
    assert forall|j: int| 0 <= j < n implies #[trigger] exact(j) == sum(n, |i: int| f(i, j)) by {
        let g = |i: int| f(i, j);
        assert forall|i: int| 0 <= i < n implies #[trigger] g(i) == pow(u, (j * k) as nat) * dft_terms(
            v,
            w,
            j,
        )(i) by {
            lemma_mul_is_commutative(pow(u, (j * k) as nat), v[i] * pow(w, (i * j) as nat));
        }
        lemma_sum_scale(n, dft_terms(v, w, j), g, pow(u, (j * k) as nat));
        lemma_mul_is_commutative(pow(u, (j * k) as nat), dft_at(v, w, j));
    }
    let rows = |i: int| v[i] * sum(n, geo_terms(w, i + (n - 1) * k));
    // sum_j f(i, j) = v[i] * sum_j w^(j (i + (n-1) k))
    assert forall|i: int| 0 <= i < n implies #[trigger] rows(i) == sum(n, |j: int| f(i, j)) by {
        let d = i + (n - 1) * k;
        lemma_mul_nonnegative((n - 1) as int, k);
        let g = |j: int| f(i, j);
        assert forall|j: int| 0 <= j < n implies #[trigger] g(j) == v[i] * geo_terms(w, d)(j) by {
            lemma_mul_nonnegative(i, j);
            lemma_mul_nonnegative(j, k);
            lemma_mul_nonnegative(j, d);
            lemma_pow_multiplies(w, (n - 1) as nat, (j * k) as nat);
            assert(i * j + (n - 1) * (j * k) == j * d) by (nonlinear_arith)
                requires d == i + (n - 1) * k;
            lemma_mul_nonnegative((n - 1) as int, j * k);
            lemma_pow_adds(w, (i * j) as nat, ((n - 1) * (j * k)) as nat);
            lemma_mul_is_associative(v[i], pow(w, (i * j) as nat), pow(u, (j * k) as nat));
        }
        lemma_sum_scale(n, geo_terms(w, d), g, v[i]);
    }
    lemma_sum_swap(n, n, f, rows, exact);
    // each geometric sum is n at i == k and 0 elsewhere, mod m
    let delta = |i: int| if i == k { v[i] * n } else { 0 };
    assert forall|i: int| 0 <= i < n implies #[trigger] rows(i) % m == delta(i) % m by {
        let d = i + (n - 1) * k;
        lemma_mul_nonnegative((n - 1) as int, k);
        lemma_geometric_sum(n, w, d, m);
        lemma_exponent_multiple(i, k, n as int);
        lemma_mul_mod_noop_right(v[i], sum(n, geo_terms(w, d)), m);
        if i == k {
            lemma_mul_mod_noop_right(v[i], n as int, m);
        } else {
            lemma_mul_basics(v[i]);
            lemma_small_mod(0, m as nat);
        }
    }
    lemma_sum_mod(n, rows, delta, m);
    lemma_sum_single(n, delta, k);
    lemma_mul_is_commutative(v[k], n as int);
}

/// The inverse transform (inverse twiddles, then scaling by the inverse `c`
/// of `n`) undoes the forward transform.
pub proof fn lemma_fft_inverse(v: Seq<int>, r: Seq<int>, w: int, m: int, c: int)
    requires
        is_pow2(v.len()),
        r.len() == v.len(),
        m > 1,
        is_reduced(v, m),
        is_root_table(r, w, m),
        (v.len() * c) % m == 1,
    ensures
        scale_mod(fft(fft(v, r, m), inverse_roots(r), m), c, m) == v,
{
    let n = v.len();
    lemma_fft_is_dft(v, r, w, m);
    let x = fft(v, r, m);
    assert(is_reduced(x, m));
    let u = pow(w, (n - 1) as nat);
    lemma_inverse_root_table(r, w, m);
    lemma_fft_is_dft(x, inverse_roots(r), u, m);
    let y = fft(x, inverse_roots(r), m);
    let out = scale_mod(y, c, m);
    assert forall|k: int| 0 <= k < n implies #[trigger] out[k] == v[k] by {
        lemma_double_dft(v, x, w, m, k);
        // out[k] = (y[k] c) % m = (n v[k] c) % m = v[k]
        lemma_mul_mod_noop_left(dft_at(x, u, k), c, m);
        lemma_mul_mod_noop_left(n * v[k], c, m);
        assert((n * v[k]) * c == v[k] * (n * c)) by (nonlinear_arith);
        lemma_mul_mod_noop_right(v[k], n * c, m);
        lemma_mul_basics(v[k]);
        lemma_small_mod(v[k] as nat, m as nat);
    }
    assert(out =~= v);
}

/// An element with `w^(n/2) = -1` (mod `m > 2`) has order exactly `n`:
/// no smaller positive power is 1.
pub proof fn lemma_root_order(n: nat, w: int, m: int, d: int)
    requires
        is_pow2(n),
        n >= 2,
        m > 2,
        pow(w, (n / 2) as nat) % m == m - 1,
        0 < d < n,
    ensures
        pow(w, d as nat) % m != 1,
    decreases n,
{
    lemma_pow2_even(n);
    let h = (n / 2) as nat;
    if d % 2 == 1 {
        if pow(w, d as nat) % m == 1 {
            // w^(d h) = (w^d)^h = 1, but also (w^h)^d = (-1)^d = -1
            lemma_pow_multiplies(w, d as nat, h);
            lemma_pow_mod_noop(pow(w, d as nat), h, m);
            lemma1_pow(h);
            lemma_small_mod(1, m as nat);
            lemma_pow_multiplies(w, h, d as nat);
            lemma_mul_is_commutative(d, h as int);
            lemma_pow_minus_one(pow(w, h), d as nat, m);
        }
    } else {
        let w2 = pow(w, 2);
        lemma_pow_multiplies(w, 2, (d / 2) as nat);
        if n == 2 {
        } else {
            lemma_pow2_even(h);
            lemma_pow_multiplies(w, 2, (h / 2) as nat);
            lemma_root_order(h, w2, m, d / 2);
        }
    }
}

/// The powers `w^0, ..., w^(n-1)` of an element of order `n` are distinct mod `m`.
pub proof fn lemma_powers_distinct(n: nat, w: int, m: int, i: int, j: int)
    requires
        is_pow2(n),
        n >= 2,
        m > 2,
        pow(w, (n / 2) as nat) % m == m - 1,
        0 <= i < j < n,
    ensures
        pow(w, i as nat) % m != pow(w, j as nat) % m,
{
    lemma_pow2_even(n);
    let h = (n / 2) as nat;
    // w^n = 1 mod m
    lemma_pow_minus_one(pow(w, h), 2, m);
    lemma_pow_multiplies(w, h, 2);
    let d = j - i;
    let a = pow(w, i as nat);
    let b = pow(w, ((n - 1) * i) as nat);
    lemma_mul_nonnegative((n - 1) as int, i);
    // a * b = w^(n i) = 1 mod m
    lemma_pow_adds(w, i as nat, ((n - 1) * i) as nat);
    assert(i + (n - 1) * i == n * i) by (nonlinear_arith);
    lemma_pow_multiplies(w, n, i as nat);
    lemma_pow_mod_noop(pow(w, n), i as nat, m);
    lemma1_pow(i as nat);
    lemma_small_mod(1, m as nat);
    assert((a * b) % m == 1);
    if a % m == pow(w, j as nat) % m {
        // w^j b = w^d (a b), so w^d = w^j b = a b = 1 mod m
        lemma_pow_adds(w, i as nat, d as nat);
        let c = pow(w, d as nat);
        assert(pow(w, j as nat) * b == c * (a * b)) by {
            lemma_mul_is_commutative(a, c);
            lemma_mul_is_associative(c, a, b);
        }
        lemma_mul_mod_noop_left(pow(w, j as nat), b, m);
        lemma_mul_mod_noop_left(a, b, m);
        lemma_mul_mod_noop_right(c, a * b, m);
        lemma_mul_basics(c);
        lemma_root_order(n, w, m, d);
    }
}

/// The transform is linear: scaling the input by `c` scales the output by
/// `c` (mod `m`).
pub proof fn lemma_fft_scale(y: Seq<int>, r: Seq<int>, w: int, m: int, c: int)
    requires
        is_pow2(y.len()),
        r.len() == y.len(),
        m > 1,
        is_reduced(y, m),
        is_root_table(r, w, m),
    ensures
        fft(scale_mod(y, c, m), r, m) == scale_mod(fft(y, r, m), c, m),
{
    let n = y.len();
    let sy = scale_mod(y, c, m);
    assert(is_reduced(sy, m)) by {
        assert forall|i: int| 0 <= i < n implies 0 <= #[trigger] sy[i] < m by {
            lemma_mod_bound(y[i] * c, m);
        }
    }
    lemma_fft_is_dft(y, r, w, m);
    lemma_fft_is_dft(sy, r, w, m);
    lemma_fft_len(sy, r, m);
    lemma_fft_len(y, r, m);
    let lhs = fft(sy, r, m);
    let rhs = scale_mod(fft(y, r, m), c, m);
    assert forall|k: int| 0 <= k < n implies lhs[k] == rhs[k] by {
        let f = dft_terms(sy, w, k);
        let g = dft_terms(y, w, k);
        let cg = |j: int| c * g(j);
        assert forall|j: int| 0 <= j < n implies #[trigger] f(j) % m == cg(j) % m by {
            let pw = pow(w, (j * k) as nat);
            lemma_mul_mod_noop_left(y[j] * c, pw, m);
            assert(c * (y[j] * pw) == (y[j] * c) * pw) by (nonlinear_arith);
        }
        lemma_sum_mod(n, f, cg, m);
        lemma_sum_scale(n, g, cg, c);
        lemma_mul_mod_noop_right(c, dft_at(y, w, k), m);
        lemma_mul_is_commutative(c, dft_at(y, w, k) % m);
    }
    assert(lhs =~= rhs);
}

/// The inverse twiddles of the inverse twiddles are the twiddles.
pub proof fn lemma_inverse_roots_involution(r: Seq<int>)
    ensures
        inverse_roots(inverse_roots(r)) == r,
{
    assert(inverse_roots(inverse_roots(r)) =~= r);
}

/// The forward transform also undoes the inverse transform: scaling the
/// inverse-twiddle transform by `c` (the inverse of `n`), then applying the
/// forward transform, gives the values back.
pub proof fn lemma_fft_inverse_first(v: Seq<int>, r: Seq<int>, w: int, m: int, c: int)
    requires
        is_pow2(v.len()),
        r.len() == v.len(),
        m > 2,
        is_reduced(v, m),
        is_root_table(r, w, m),
        (v.len() * c) % m == 1,
    ensures
        fft(scale_mod(fft(v, inverse_roots(r), m), c, m), r, m) == v,
{
    let n = v.len();
    let u = pow(w, (n - 1) as nat);
    let ir = inverse_roots(r);
    lemma_inverse_root_table(r, w, m);
    lemma_fft_inverse(v, ir, u, m, c);
    lemma_inverse_roots_involution(r);
    let y = fft(v, ir, m);
    lemma_fft_is_dft(v, ir, u, m);
    assert(is_reduced(y, m)) by {
        assert forall|i: int| 0 <= i < n implies 0 <= #[trigger] y[i] < m by {
            lemma_mod_bound(dft_at(v, u, i), m);
        }
    }
    lemma_fft_scale(y, r, w, m, c);
}

} // verus!
