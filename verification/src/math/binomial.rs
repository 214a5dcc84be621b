//! Binomial coefficients, the binomial theorem, and Fermat's little theorem
//! for every prime modulus.

use vstd::prelude::*;
use vstd::arithmetic::div_mod::*;
use vstd::arithmetic::mul::*;
use vstd::arithmetic::power::*;
use super::primes::{is_prime, lemma_euclid};
use super::sums::{
    sum,
    lemma_sum_drop_first,
    lemma_sum_mod,
    lemma_sum_plus,
    lemma_sum_scale,
    lemma_sum_single,
};

verus! {

/// `n` choose `k`, by Pascal's rule; zero outside `0 <= k <= n`.
pub open spec fn binom(n: nat, k: int) -> int
    decreases n,
{
    if k < 0 || k > n {
        0
    } else if n == 0 {
        1
    } else {
        binom((n - 1) as nat, k - 1) + binom((n - 1) as nat, k)
    }
}

/// Pascal's rule holds for every `k`, in range or not.
proof fn lemma_pascal(n: nat, k: int)
    requires
        n >= 1,
    ensures
        binom(n, k) == binom((n - 1) as nat, k - 1) + binom((n - 1) as nat, k),
{
    if k < 0 || k > n {
        assert(binom((n - 1) as nat, k - 1) == 0);
        assert(binom((n - 1) as nat, k) == 0);
    }
}

/// Binomial coefficients are not negative.
proof fn lemma_binom_nonneg(n: nat, k: int)
    ensures
        binom(n, k) >= 0,
    decreases n,
{
    if n > 0 && 0 <= k <= n {
        lemma_binom_nonneg((n - 1) as nat, k - 1);
        lemma_binom_nonneg((n - 1) as nat, k);
    }
}

/// `n` choose 0 and `n` choose `n` are 1.
proof fn lemma_binom_edges(n: nat)
    ensures
        binom(n, 0) == 1,
        binom(n, n as int) == 1,
    decreases n,
{
    if n > 0 {
        lemma_binom_edges((n - 1) as nat);
        assert(binom((n - 1) as nat, -1) == 0);
        assert(binom((n - 1) as nat, n as int) == 0);
    }
}

/// `k * C(n, k) = n * C(n - 1, k - 1)`.
proof fn lemma_absorption(n: nat, k: int)
    requires
        n >= 1,
    ensures
        k * binom(n, k) == n * binom((n - 1) as nat, k - 1),
    decreases n,
{
    if n == 1 {
        lemma_pascal(1, k);
        if k == 0 {
            assert(binom(0, -1) == 0);
        } else if k == 1 {
            assert(binom(0, 0) == 1);
            assert(binom(0, 1) == 0);
        } else {
            assert(binom(1, k) == 0);
            assert(binom(0, k - 1) == 0);
        }
        lemma_mul_basics(k);
    } else {
        let m = (n - 1) as nat;
        lemma_pascal(n, k);
        lemma_pascal(m, k - 1);
        lemma_absorption(m, k - 1);
        lemma_absorption(m, k);
        let a = binom(m, k - 1);
        let b = binom(m, k);
        let c = binom((m - 1) as nat, k - 2);
        let d = binom((m - 1) as nat, k - 1);
        let t = binom(n, k);
        assert(k * t == n * a) by (nonlinear_arith)
            requires
                t == a + b,
                a == c + d,
                (k - 1) * a == m * c,
                k * b == m * d,
                n == m + 1,
        ;
    }
}

/// A prime `p` divides `p` choose `k` for `0 < k < p`.
proof fn lemma_prime_divides_binom(p: int, k: int)
    requires
        is_prime(p),
        0 < k < p,
    ensures
        binom(p as nat, k) % p == 0,
{
    let b = binom(p as nat, k);
    lemma_absorption(p as nat, k);
    lemma_binom_nonneg(p as nat, k);
    lemma_mod_multiples_basic(binom((p - 1) as nat, k - 1), p);
    lemma_mul_is_commutative(binom((p - 1) as nat, k - 1), p);
    lemma_euclid(k, b, p);
    lemma_small_mod(k as nat, p as nat);
}

/// The terms `C(n, k) x^k` of the binomial expansion of `(x + 1)^n`.
pub open spec fn binom_terms(n: nat, x: int) -> spec_fn(int) -> int {
    |k: int| binom(n, k) * pow(x, k as nat)
}

/// The binomial theorem: `(x + 1)^n` is the sum of `C(n, k) x^k` over
/// `0 <= k <= n`.
pub proof fn lemma_binomial(x: int, n: nat)
    ensures
        pow(x + 1, n) == sum(n + 1, binom_terms(n, x)),
    decreases n,
{
    if n == 0 {
        lemma_pow0(x + 1);
        lemma_pow0(x);
        assert(sum(1, binom_terms(0, x)) == sum(0, binom_terms(0, x)) + binom(0, 0) * pow(x, 0));
    } else {
        let m = (n - 1) as nat;
        let tm = binom_terms(m, x);
        let tn = binom_terms(n, x);
        let s = sum(m + 1, tm);
        lemma_binomial(x, m);
        // tn = lo + tm pointwise, with lo(k) = C(m, k-1) x^k
        let lo = |k: int| binom(m, k - 1) * pow(x, k as nat);
        assert forall|k: int| 0 <= k < n + 1 implies #[trigger] tn(k) == lo(k) + tm(k) by {
            lemma_pascal(n, k);
            lemma_mul_is_distributive_add_other_way(pow(x, k as nat), binom(m, k - 1), binom(m, k));
        }
        lemma_sum_plus(n + 1, lo, tm, tn);
        // the top term of tm is zero
        assert(sum(n + 1, tm) == s) by {
            assert(binom(m, n as int) == 0);
            lemma_mul_basics(pow(x, n));
        }
        // sum(lo) = lo(0) + x * s
        lemma_sum_drop_first(n + 1, lo);
        let shifted = |i: int| lo(i + 1);
        assert forall|i: int| 0 <= i < n implies #[trigger] shifted(i) == x * tm(i) by {
            assert(pow(x, (i + 1) as nat) == x * pow(x, i as nat)) by {
                reveal(pow);
            }
            lemma_mul_is_associative(binom(m, i), x, pow(x, i as nat));
            lemma_mul_is_commutative(binom(m, i), x);
            lemma_mul_is_associative(x, binom(m, i), pow(x, i as nat));
        }
        lemma_sum_scale(n, tm, shifted, x);
        assert(lo(0) == 0) by {
            assert(binom(m, -1) == 0);
        }
        // (x + 1)^n = (x + 1) * s = x * s + s
        assert(pow(x + 1, n) == (x + 1) * pow(x + 1, m)) by {
            reveal(pow);
        }
        lemma_mul_is_distributive_add_other_way(s, x, 1);
    }
}

/// `(x + 1)^p = x^p + 1` mod a prime `p`.
proof fn lemma_add_one_power(x: int, p: int)
    requires
        is_prime(p),
    ensures
        pow(x + 1, p as nat) % p == (pow(x, p as nat) + 1) % p,
{
    let n = p as nat;
    let t = binom_terms(n, x);
    let ends = |k: int| if k == 0 { 1 } else if k == p { pow(x, n) } else { 0 };
    lemma_binomial(x, n);
    lemma_binom_edges(n);
    assert forall|k: int| 0 <= k < n + 1 implies #[trigger] t(k) % p == ends(k) % p by {
        if k == 0 {
            lemma_pow0(x);
        } else if k == p {
            lemma_mul_basics(pow(x, n));
        } else {
            lemma_prime_divides_binom(p, k);
            lemma_mul_mod_noop_left(binom(n, k), pow(x, k as nat), p);
            lemma_mul_basics(pow(x, k as nat));
            lemma_small_mod(0, n);
        }
    }
    lemma_sum_mod(n + 1, t, ends, p);
    let first = |k: int| if k == 0 { 1int } else { 0int };
    let last = |k: int| if k == p { pow(x, n) } else { 0int };
    lemma_sum_plus(n + 1, first, last, ends);
    lemma_sum_single(n + 1, first, 0);
    lemma_sum_single(n + 1, last, p);
}

/// `x^p = x` mod a prime `p`, for `x >= 0`.
proof fn lemma_power_p(x: nat, p: int)
    requires
        is_prime(p),
    ensures
        pow(x as int, p as nat) % p == (x as int) % p,
    decreases x,
{
    if x == 0 {
        lemma0_pow(p as nat);
    } else {
        let y = (x - 1) as nat;
        lemma_power_p(y, p);
        lemma_add_one_power(y as int, p);
        lemma_add_mod_noop(pow(y as int, p as nat), 1, p);
        lemma_add_mod_noop(y as int, 1, p);
    }
}

/// Fermat's little theorem: `x^(p-1) = 1` mod a prime `p` for every `x`
/// that is not a multiple of `p`.
pub proof fn lemma_fermat_prime(p: int, x: int)
    requires
        is_prime(p),
        x % p != 0,
    ensures
        pow(x, (p - 1) as nat) % p == 1,
{
    let e = (p - 1) as nat;
    let r = x % p;
    lemma_mod_bound(x, p);
    lemma_pow_mod_noop(x, e, p);
    let y = pow(r, e);
    lemma_power_p(r as nat, p);
    lemma_pow1(r);
    lemma_pow_adds(r, 1, e);
    lemma_pow_positive(r, e);
    lemma_small_mod(r as nat, p as nat);
    // (r * y) % p == r, so p divides r * (y - 1)
    lemma_sub_mod_noop(r * y, r, p);
    assert(r * y - r == r * (y - 1)) by {
        lemma_mul_is_distributive_sub(r, y, 1);
    }
    lemma_small_mod(0, p as nat);
    lemma_euclid(r, y - 1, p);
    lemma_add_mod_noop(y - 1, 1, p);
    lemma_small_mod(1, p as nat);
}

} // verus!
