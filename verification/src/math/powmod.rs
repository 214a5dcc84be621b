//! Modular powers: a square-and-multiply specification that the prover can
//! evaluate, proved equal to `pow(b, e) % m`, and algebraic facts about powers
//! modulo `m`.

use vstd::prelude::*;
use vstd::arithmetic::div_mod::*;
use vstd::arithmetic::mul::*;
use vstd::arithmetic::power::*;

verus! {

/// `b^e mod m` by square-and-multiply on the bits of `e`.
#[verifier::opaque]
pub open spec fn pow_mod_spec(b: int, e: nat, m: int) -> int
    decreases e,
{
    if e == 0 {
        1int % m
    } else {
        let h = pow_mod_spec(b, e / 2, m);
        let h2 = (h * h) % m;
        if e % 2 == 1 {
            (h2 * (b % m)) % m
        } else {
            h2
        }
    }
}

pub proof fn lemma_pow_mod_spec(b: int, e: nat, m: int)
    requires
        m > 0,
    ensures
        pow_mod_spec(b, e, m) == pow(b, e) % m,
    decreases e,
{
    reveal(pow);
    reveal(pow_mod_spec);
    if e > 0 {
        lemma_pow_mod_spec(b, e / 2, m);
        let h = pow(b, e / 2);
        lemma_pow_adds(b, e / 2, e / 2);
        lemma_mul_mod_noop(h, h, m);
        if e % 2 == 1 {
            lemma_pow_adds(b, (e / 2 + e / 2) as nat, 1);
            lemma_pow1(b);
            lemma_mul_mod_noop(h * h, b, m);
            lemma_mod_twice(h * h, m);
            lemma_mul_mod_noop_left(h * h % m, b, m);
            lemma_mul_mod_noop_right(h * h % m, b, m);
        }
    }
}

/// One square-and-multiply step, from the power for `e / 2` to the power for `e`.
pub proof fn lemma_pow_mod_step(b: int, e: nat, m: int, h: int)
    requires
        e >= 1,
        pow_mod_spec(b, e / 2, m) == h,
    ensures
        pow_mod_spec(b, e, m) == (if e % 2 == 1 {
            ((h * h) % m * (b % m)) % m
        } else {
            (h * h) % m
        }),
{
    reveal(pow_mod_spec);
}

/// The power for exponent 0.
pub proof fn lemma_pow_mod_zero(b: int, m: int)
    ensures
        pow_mod_spec(b, 0, m) == 1int % m,
{
    reveal(pow_mod_spec);
}

/// A power of a residue congruent to -1: even exponents give 1, odd give -1.
pub proof fn lemma_pow_minus_one(x: int, e: nat, m: int)
    requires
        m > 1,
        x % m == m - 1,
    ensures
        pow(x, e) % m == (if e % 2 == 0 { 1 } else { m - 1 }),
    decreases e,
{
    reveal(pow);
    if e == 0 {
        lemma_small_mod(1, m as nat);
    } else {
        lemma_pow_minus_one(x, (e - 1) as nat, m);
        let prev = pow(x, (e - 1) as nat);
        assert(pow(x, e) == x * prev);
        lemma_mul_mod_noop(x, prev, m);
        assert(pow(x, e) % m == ((m - 1) * (prev % m)) % m);
        if (e - 1) % 2 == 0 {
            assert(prev % m == 1);
            lemma_small_mod((m - 1) as nat, m as nat);
        } else {
            assert(prev % m == m - 1);
            assert((m - 1) * (m - 1) == m * (m - 2) + 1) by (nonlinear_arith);
            lemma_mod_multiples_vanish(m - 2, 1, m);
            lemma_small_mod(1, m as nat);
        }
    }
}

} // verus!
