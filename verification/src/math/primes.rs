//! Primes and divisibility.

use vstd::prelude::*;
use vstd::arithmetic::div_mod::*;
use vstd::arithmetic::mul::*;

verus! {

/// `q` is prime: at least 2, with no divisor strictly between 1 and itself.
pub open spec fn is_prime(q: int) -> bool {
    q >= 2 && forall|d: int| 2 <= d < q ==> #[trigger] (q % d) != 0
}

/// If `d` divides `a` and `a` divides `b`, then `d` divides `b`.
pub proof fn lemma_divides_trans(d: int, a: int, b: int)
    requires
        d > 0,
        a > 0,
        a % d == 0,
        b % a == 0,
    ensures
        b % d == 0,
{
    lemma_fundamental_div_mod(a, d);
    lemma_fundamental_div_mod(b, a);
    let x = a / d;
    let y = b / a;
    assert(b == d * (x * y)) by {
        lemma_mul_is_associative(d, x, y);
        lemma_mul_is_commutative(a, y);
    }
    lemma_mod_multiples_basic(x * y, d);
    lemma_mul_is_commutative(x * y, d);
}

/// A divisor of a positive number is at most that number.
pub proof fn lemma_divisor_le(d: int, a: int)
    requires
        d > 0,
        a > 0,
        a % d == 0,
    ensures
        d <= a,
{
    lemma_fundamental_div_mod(a, d);
    let k = a / d;
    if k <= 0 {
        lemma_mul_inequality(k, 0, d);
        lemma_mul_is_commutative(k, d);
    } else {
        lemma_mul_inequality(1, k, d);
        lemma_mul_is_commutative(k, d);
    }
}

/// Euclid's lemma for a residue `0 < a < p`: if `p` divides `a * b`, it divides `b`.
proof fn lemma_euclid_reduced(a: int, b: int, p: int)
    requires
        is_prime(p),
        0 < a < p,
        b >= 0,
        (a * b) % p == 0,
    ensures
        b % p == 0,
    decreases a,
{
    if a == 1 {
        lemma_mul_basics(b);
    } else {
        let q = p / a;
        let r = p % a;
        lemma_fundamental_div_mod(p, a);
        lemma_mod_bound(p, a);
        assert(r > 0) by {
            assert(2 <= a < p);
            assert(p % a != 0);
        }
        // r * b = p * b - q * (a * b)
        assert(r * b == p * b - q * (a * b)) by {
            lemma_mul_is_distributive_sub_other_way(b, p, a * q);
            lemma_mul_is_associative(q, a, b);
            lemma_mul_is_commutative(a, q);
        }
        assert((r * b) % p == 0) by {
            lemma_fundamental_div_mod(a * b, p);
            let t = (a * b) / p;
            assert(q * (a * b) == p * (q * t)) by {
                lemma_mul_is_associative(q, p, t);
                lemma_mul_is_commutative(q, p);
                lemma_mul_is_associative(p, q, t);
            }
            assert(r * b == p * (b - q * t)) by {
                lemma_mul_is_distributive_sub(p, b, q * t);
            }
            lemma_mod_multiples_basic(b - q * t, p);
            lemma_mul_is_commutative(b - q * t, p);
        }
        lemma_euclid_reduced(r, b, p);
    }
}

/// Euclid's lemma: a prime dividing a product divides one of the factors.
pub proof fn lemma_euclid(a: int, b: int, p: int)
    requires
        is_prime(p),
        a >= 0,
        b >= 0,
        (a * b) % p == 0,
    ensures
        a % p == 0 || b % p == 0,
{
    if a % p != 0 {
        let ar = a % p;
        lemma_mod_bound(a, p);
        lemma_mul_mod_noop_left(a, b, p);
        lemma_euclid_reduced(ar, b, p);
    }
}

/// A prime that divides a power of a prime `q` is `q`.
pub proof fn lemma_prime_divides_prime(p: int, q: int)
    requires
        is_prime(p),
        is_prime(q),
        q % p == 0,
    ensures
        p == q,
{
    lemma_divisor_le(p, q);
    if p < q {
        assert(q % p != 0);
    }
}

} // verus!
