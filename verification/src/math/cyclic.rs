//! Elements of full order modulo `p`: if `g^(p-1) = 1` and no
//! `g^((p-1)/q)` is 1 for a prime `q` dividing `p - 1`, then the powers of
//! `g` run through every nonzero residue, `p` is prime, and every nonzero
//! residue is such a power.

use vstd::prelude::*;
use vstd::arithmetic::div_mod::*;
use vstd::arithmetic::mul::*;
use vstd::arithmetic::power::*;
use vstd::set_lib::{lemma_int_range, lemma_map_size, lemma_subset_equality, set_int_range};
use super::primes::{is_prime, lemma_divides_trans};

verus! {

/// No prime `q` dividing `p - 1` has `g^((p-1)/q) = 1` mod `p`.
pub open spec fn no_proper_order(g: int, p: int) -> bool {
    forall|q: int| #[trigger] is_prime(q) && (p - 1) % q == 0 ==> pow(g, ((p - 1) / q) as nat) % p != 1
}

/// `g^(e mod d)` is 1 when `g^e` and `g^d` are.
proof fn lemma_power_of_remainder(g: int, e: nat, m: int, d: nat)
    requires
        m > 1,
        d > 0,
        pow(g, e) % m == 1,
        pow(g, d) % m == 1,
    ensures
        pow(g, e % d) % m == 1,
{
    let q = e / d;
    let r = e % d;
    lemma_fundamental_div_mod(e as int, d as int);
    lemma_mul_is_commutative(d as int, q as int);
    lemma_pow_adds(g, (q * d) as nat, r);
    lemma_pow_multiplies(g, d, q);
    lemma_mul_is_commutative(d as int, q as int);
    lemma_pow_mod_noop(pow(g, d), q, m);
    lemma1_pow(q);
    lemma_small_mod(1, m as nat);
    lemma_mul_mod_noop_left(pow(g, d * q), pow(g, r), m);
}

/// From `g^d = 1` (and `g^e = 1`), a divisor `d0 <= d` of `e` with `g^d0 = 1`.
proof fn lemma_order_divisor(g: int, e: nat, m: int, d: nat) -> (d0: nat)
    requires
        m > 1,
        e > 0,
        d > 0,
        pow(g, e) % m == 1,
        pow(g, d) % m == 1,
    ensures
        0 < d0 <= d,
        e % d0 == 0,
        pow(g, d0) % m == 1,
    decreases d,
{
    if e % d == 0 {
        d
    } else {
        lemma_power_of_remainder(g, e, m, d);
        lemma_order_divisor(g, e, m, e % d)
    }
}

/// Every integer at least 2 has a prime factor.
pub proof fn lemma_prime_factor(n: int) -> (q: int)
    requires
        n >= 2,
    ensures
        is_prime(q),
        n % q == 0,
    decreases n,
{
    if is_prime(n) {
        lemma_mod_self_0(n);
        n
    } else {
        let d = choose|d: int| 2 <= d < n && #[trigger] (n % d) == 0;
        let q = lemma_prime_factor(d);
        lemma_divides_trans(q, d, n);
        q
    }
}

/// With `g^(p-1) = 1` and no proper order, no smaller positive power of `g`
/// is 1.
pub proof fn lemma_full_order(g: int, p: int, d: nat)
    requires
        p > 2,
        pow(g, (p - 1) as nat) % p == 1,
        no_proper_order(g, p),
        0 < d < p - 1,
    ensures
        pow(g, d) % p != 1,
{
    let e = (p - 1) as nat;
    if pow(g, d) % p == 1 {
        let d0 = lemma_order_divisor(g, e, p, d);
        lemma_fundamental_div_mod(e as int, d0 as int);
        let k = e / d0;
        assert(k >= 2) by {
            assert(e == d0 * k);
            if k <= 1 {
                lemma_mul_inequality(k as int, 1, d0 as int);
                lemma_mul_is_commutative(k as int, d0 as int);
            }
        }
        let q = lemma_prime_factor(k as int);
        lemma_fundamental_div_mod(k as int, q);
        let j = (k as int) / q;
        // e = d0 * k = d0 * q * j, so e / q = d0 * j
        assert(e == (d0 * j) * q) by {
            lemma_mul_is_associative(d0 as int, j as int, q);
            lemma_mul_is_commutative(j as int, q);
        }
        lemma_mod_multiples_basic((d0 * j) as int, q);
        lemma_div_multiples_vanish((d0 * j) as int, q);
        lemma_mul_is_commutative((d0 * j) as int, q);
        assert(j >= 0) by {
            lemma_div_pos_is_pos(k as int, q);
        }
        lemma_pow_multiplies(g, d0, j as nat);
        lemma_pow_mod_noop(pow(g, d0), j as nat, p);
        lemma1_pow(j as nat);
        lemma_small_mod(1, p as nat);
        assert(pow(g, (e / (q as nat)) as nat) % p == 1);
    }
}

/// Two powers of `g` below `p - 1` that agree mod `p` have the same
/// exponent.
pub proof fn lemma_full_order_injective(g: int, p: int, i: nat, j: nat)
    requires
        p > 2,
        pow(g, (p - 1) as nat) % p == 1,
        no_proper_order(g, p),
        i < j < p - 1,
    ensures
        pow(g, i) % p != pow(g, j) % p,
{
    let e = (p - 1) as nat;
    let d = (j - i) as nat;
    let a = pow(g, i);
    let b = pow(g, (e - i) as nat);
    lemma_pow_adds(g, i, (e - i) as nat);
    if a % p == pow(g, j) % p {
        let c = pow(g, d);
        lemma_pow_adds(g, i, d);
        assert(pow(g, j) * b == c * (a * b)) by {
            lemma_mul_is_commutative(a, c);
            lemma_mul_is_associative(c, a, b);
        }
        lemma_mul_mod_noop_left(pow(g, j), b, p);
        lemma_mul_mod_noop_left(a, b, p);
        lemma_mul_mod_noop_right(c, a * b, p);
        lemma_mul_basics(c);
        lemma_full_order(g, p, d);
    }
}

/// No power of `g` is a multiple of `p` when `g^(p-1) = 1`.
proof fn lemma_power_nonzero(g: int, p: int, k: nat)
    requires
        p > 1,
        k <= p - 1,
        pow(g, (p - 1) as nat) % p == 1,
    ensures
        pow(g, k) % p != 0,
{
    let e = (p - 1) as nat;
    lemma_pow_adds(g, k, (e - k) as nat);
    if pow(g, k) % p == 0 {
        lemma_mul_mod_noop_left(pow(g, k), pow(g, (e - k) as nat), p);
        lemma_small_mod(0, p as nat);
    }
}

/// `k |-> g^k mod p`.
pub open spec fn power_map(g: int, p: int) -> spec_fn(int) -> int {
    |k: int| pow(g, k as nat) % p
}

/// Every nonzero residue is a power of `g`.
pub proof fn lemma_powers_cover(g: int, p: int, x: int) -> (k: nat)
    requires
        p > 2,
        pow(g, (p - 1) as nat) % p == 1,
        no_proper_order(g, p),
        0 < x < p,
    ensures
        k < p - 1,
        pow(g, k) % p == x,
{
    let f = power_map(g, p);
    let dom = set_int_range(0, p - 1);
    let img = dom.map(f);
    lemma_int_range(0, p - 1);
    lemma_int_range(1, p);
    assert(vstd::relations::injective_on(f, dom)) by {
        assert forall|a: int, b: int| dom.contains(a) && dom.contains(b) && #[trigger] f(a) == #[trigger] f(b) implies a == b by {
            if a < b {
                lemma_full_order_injective(g, p, a as nat, b as nat);
            } else if b < a {
                lemma_full_order_injective(g, p, b as nat, a as nat);
            }
        }
    }
    lemma_map_size(dom, img, f);
    assert(img.subset_of(set_int_range(1, p))) by {
        assert forall|y: int| img.contains(y) implies set_int_range(1, p).contains(y) by {
            let k = choose|k: int| dom.contains(k) && f(k) == y;
            lemma_power_nonzero(g, p, k as nat);
            lemma_mod_bound(pow(g, k as nat), p);
        }
    }
    lemma_subset_equality(img, set_int_range(1, p));
    assert(set_int_range(1, p).contains(x));
    let k = choose|k: int| dom.contains(k) && f(k) == x;
    k as nat
}

/// A modulus with an element of full order is prime.
pub proof fn lemma_prime_from_full_order(g: int, p: int)
    requires
        p > 2,
        pow(g, (p - 1) as nat) % p == 1,
        no_proper_order(g, p),
    ensures
        is_prime(p),
{
    let e = (p - 1) as nat;
    assert forall|d: int| 2 <= d < p implies #[trigger] (p % d) != 0 by {
        if p % d == 0 {
            let k = lemma_powers_cover(g, p, d);
            let u = pow(g, (e - k) as nat);
            lemma_pow_adds(g, k, (e - k) as nat);
            lemma_mul_mod_noop_left(pow(g, k), u, p);
            // (d * u) mod p = 1 with d dividing p
            lemma_fundamental_div_mod(d * u, p);
            lemma_fundamental_div_mod(p, d);
            let t = (d * u) / p;
            let s = p / d;
            assert(d * (u - s * t) == 1) by {
                lemma_mul_is_distributive_sub(d, u, s * t);
                lemma_mul_is_associative(d, s, t);
            }
            if u - s * t >= 1 {
                lemma_mul_inequality(1, u - s * t, d);
            } else {
                lemma_mul_inequality(u - s * t, 0, d);
            }
        }
    }
}

} // verus!
