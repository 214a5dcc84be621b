//! Bit reversal of indices: the reversed `l`-bit representation of `x`, its
//! facts, and its agreement with the recursive even/odd permutation.

use vstd::prelude::*;
use vstd::arithmetic::div_mod::*;
use vstd::arithmetic::mul::*;
use vstd::arithmetic::power2::{lemma_pow2_unfold, pow2};
use super::transform::{bit_reversed, evens, is_pow2, lemma_bit_reversed_len, lemma_evens_odds_len, lemma_pow2_even, odds};

verus! {

/// The low `l` bits of `x` in reverse order.
pub open spec fn rev_bits(x: int, l: nat) -> int
    decreases l,
{
    if l == 0 {
        0
    } else {
        rev_bits(x / 2, (l - 1) as nat) + (x % 2) * pow2((l - 1) as nat)
    }
}

/// `n` is `2^l`.
pub proof fn lemma_pow2_is_pow2(l: nat)
    ensures
        is_pow2(pow2(l)),
    decreases l,
{
    if l > 0 {
        lemma_pow2_unfold(l);
        lemma_pow2_is_pow2((l - 1) as nat);
        assert(pow2(l) / 2 == pow2((l - 1) as nat));
    } else {
        assert(pow2(0) == 1) by {
            vstd::arithmetic::power2::lemma2_to64();
        }
    }
}

pub proof fn lemma_rev_bits_bound(x: int, l: nat)
    requires
        x >= 0,
    ensures
        0 <= rev_bits(x, l) < pow2(l),
    decreases l,
{
    if l == 0 {
        vstd::arithmetic::power2::lemma2_to64();
    } else {
        lemma_rev_bits_bound(x / 2, (l - 1) as nat);
        lemma_pow2_unfold(l);
        if x % 2 == 0 {
            assert((x % 2) * pow2((l - 1) as nat) == 0);
        } else {
            assert((x % 2) * pow2((l - 1) as nat) == pow2((l - 1) as nat));
        }
    }
}

/// Below `2^(l-1)`, the top bit is 0 and reversing with one more bit doubles.
proof fn lemma_rev_low(x: int, l: nat)
    requires
        l >= 1,
        0 <= x < pow2((l - 1) as nat),
    ensures
        rev_bits(x, l) == 2 * rev_bits(x, (l - 1) as nat),
    decreases l,
{
    if l == 1 {
        vstd::arithmetic::power2::lemma2_to64();
    } else {
        lemma_pow2_unfold((l - 1) as nat);
        assert(x / 2 < pow2((l - 2) as nat));
        lemma_rev_low(x / 2, (l - 1) as nat);
        if x % 2 == 0 {
            assert((x % 2) * pow2((l - 1) as nat) == 0);
            assert((x % 2) * pow2((l - 2) as nat) == 0);
        } else {
            assert((x % 2) * pow2((l - 1) as nat) == pow2((l - 1) as nat));
            assert((x % 2) * pow2((l - 2) as nat) == pow2((l - 2) as nat));
        }
    }
}

/// Setting the top bit sets the lowest bit of the reversal.
proof fn lemma_rev_high(x: int, l: nat)
    requires
        l >= 1,
        0 <= x < pow2((l - 1) as nat),
    ensures
        rev_bits(x + pow2((l - 1) as nat), l) == rev_bits(x, l) + 1,
    decreases l,
{
    let t = pow2((l - 1) as nat) as int;
    if l == 1 {
        vstd::arithmetic::power2::lemma2_to64();
    } else {
        lemma_pow2_unfold((l - 1) as nat);
        let t2 = pow2((l - 2) as nat) as int;
        assert(t == 2 * t2);
        assert((x + t) / 2 == x / 2 + t2);
        assert((x + t) % 2 == x % 2);
        lemma_rev_high(x / 2, (l - 1) as nat);
    }
}

/// Reversing the bits twice gives back the index.
pub proof fn lemma_rev_involution(x: int, l: nat)
    requires
        0 <= x < pow2(l),
    ensures
        rev_bits(rev_bits(x, l), l) == x,
    decreases l,
{
    if l == 0 {
        vstd::arithmetic::power2::lemma2_to64();
    } else {
        lemma_pow2_unfold(l);
        let q = x / 2;
        let r = rev_bits(q, (l - 1) as nat);
        lemma_rev_bits_bound(q, (l - 1) as nat);
        lemma_rev_involution(q, (l - 1) as nat);
        if x % 2 == 0 {
            lemma_rev_low(r, l);
        } else {
            lemma_rev_high(r, l);
            lemma_rev_low(r, l);
        }
    }
}

/// The recursive even/odd permutation moves index `rev_bits(i)` to `i`.
pub proof fn lemma_bit_reversed_index<T>(v: Seq<T>, l: nat)
    requires
        v.len() == pow2(l),
    ensures
        forall|i: int| 0 <= i < v.len() ==> #[trigger] bit_reversed(v)[i] == v[rev_bits(i, l)],
    decreases l,
{
    if l == 0 {
        vstd::arithmetic::power2::lemma2_to64();
        assert(v.len() == 1);
    } else {
        lemma_pow2_unfold(l);
        let h = pow2((l - 1) as nat) as int;
        let ev = evens(v);
        let od = odds(v);
        lemma_evens_odds_len(v);
        lemma_bit_reversed_index(ev, (l - 1) as nat);
        lemma_bit_reversed_index(od, (l - 1) as nat);
        lemma_bit_reversed_len(ev);
        lemma_bit_reversed_len(od);
        assert forall|i: int| 0 <= i < v.len() implies #[trigger] bit_reversed(v)[i] == v[rev_bits(i, l)] by {
            if i < h {
                lemma_rev_low(i, l);
                assert(bit_reversed(v)[i] == bit_reversed(ev)[i]);
                lemma_rev_bits_bound(i, (l - 1) as nat);
            } else {
                let i1 = i - h;
                lemma_rev_high(i1, l);
                lemma_rev_low(i1, l);
                assert(bit_reversed(v)[i] == bit_reversed(od)[i1]);
                lemma_rev_bits_bound(i1, (l - 1) as nat);
            }
        }
    }
}

/// The low `log_n` bits of `x` in reverse order.
pub fn bit_reverse(x: usize, log_n: usize) -> (r: usize)
    requires
        pow2(log_n as nat) <= usize::MAX,
    ensures
        r == rev_bits(x as int, log_n as nat),
{
    let ghost x0 = x as int;
    let ghost l = log_n as nat;
    let mut x = x;
    let mut result: usize = 0;
    let mut k: usize = 0;
    proof {
        vstd::arithmetic::power2::lemma2_to64();
    }
    while k < log_n
        invariant
            k <= log_n,
            l == log_n,
            pow2(l) <= usize::MAX,
            result < pow2(k as nat),
            x == x0 / (pow2(k as nat) as int),
            x0 >= 0,
            result * pow2((l - k) as nat) + rev_bits(x as int, (l - k) as nat) == rev_bits(x0, l),
        decreases log_n - k,
    {
        let ghost r0 = result as int;
        let ghost xo = x as int;
        proof {
            lemma_pow2_unfold((k + 1) as nat);
            assert(pow2((k + 1) as nat) <= pow2(l)) by {
                if k + 1 < l {
                    vstd::arithmetic::power2::lemma_pow2_strictly_increases((k + 1) as nat, l);
                }
            }
            vstd::arithmetic::power2::lemma2_to64();
            assert(1 < usize::BITS);
            assert(result * pow2(1) <= usize::MAX);
            vstd::bits::lemma_usize_shl_is_mul(result, 1);
            assert(((result << 1usize) | (x & 1usize)) == (result << 1usize) + (x & 1usize))
                by (bit_vector);
            assert(x & 1usize == x % 2) by (bit_vector);
            assert(x >> 1usize == x / 2) by (bit_vector);
            lemma_div_denominator(x0, pow2(k as nat) as int, 2);
        }
        result = (result << 1) | (x & 1);
        x >>= 1;
        proof {
            let rest = (l - k - 1) as nat;
            lemma_pow2_unfold((l - k) as nat);
            assert(result == 2 * r0 + xo % 2);
            assert(x == xo / 2);
            assert(rev_bits(xo, (rest + 1) as nat) == rev_bits(xo / 2, rest) + (xo % 2) * pow2(rest));
            let pr = pow2(rest) as int;
            let pr1 = pow2((rest + 1) as nat) as int;
            assert(result * pr == r0 * pr1 + (xo % 2) * pr) by (nonlinear_arith)
                requires
                    result == 2 * r0 + xo % 2,
                    pr1 == 2 * pr,
            ;
        }
        k += 1;
    }
    proof {
        vstd::arithmetic::power2::lemma2_to64();
        assert(k == log_n);
        assert(pow2((l - k) as nat) == 1);
        assert(rev_bits(x as int, (l - k) as nat) == 0);
        let e = pow2((l - k) as nat) as int;
        assert(result * e == result) by (nonlinear_arith)
            requires
                e == 1,
        ;
    }
    result
}


/// `<[T]>::swap` (std): exchanges the elements at `a` and `b`; both must be
/// in bounds (it panics otherwise).
pub assume_specification<Item>[ <[Item]>::swap ](s: &mut [Item], a: usize, b: usize)
    requires
        a < old(s).len(),
        b < old(s).len(),
    ensures
        final(s)@ == old(s)@.update(a as int, old(s)@[b as int]).update(b as int, old(s)@[a as int]),
;

/// The number of trailing zero bits of `n` (0 for 0).
pub open spec fn trailing_zeros_spec(n: nat) -> nat
    decreases n,
{
    if n == 0 || n % 2 == 1 {
        0
    } else {
        1 + trailing_zeros_spec(n / 2)
    }
}

/// `2^trailing_zeros(n)` divides `n` (and is at most `n`) for `n > 0`.
pub proof fn lemma_trailing_zeros(n: nat)
    requires
        n > 0,
    ensures
        n % pow2(trailing_zeros_spec(n)) == 0,
        pow2(trailing_zeros_spec(n)) <= n,
    decreases n,
{
    vstd::arithmetic::power2::lemma2_to64();
    if n % 2 == 0 {
        lemma_trailing_zeros(n / 2);
        let k = trailing_zeros_spec(n / 2);
        lemma_pow2_unfold(k + 1);
        vstd::arithmetic::power2::lemma_pow2_pos(k);
        vstd::arithmetic::div_mod::lemma_fundamental_div_mod((n / 2) as int, pow2(k) as int);
        let q = (n / 2) / pow2(k);
        assert(n == (q * pow2(k)) * 2);
        assert(n == q * (pow2(k) * 2)) by {
            vstd::arithmetic::mul::lemma_mul_is_associative(q as int, pow2(k) as int, 2);
        }
        vstd::arithmetic::div_mod::lemma_mod_multiples_basic(q as int, pow2(k + 1) as int);
    }
}

/// The number of trailing zero bits of `n > 0`.
pub fn trailing_zeros(n: usize) -> (k: usize)
    requires
        n > 0,
    ensures
        k == trailing_zeros_spec(n as nat),
        pow2(k as nat) <= n,
{
    let mut m = n;
    let mut k: usize = 0;
    while m % 2 == 0
        invariant
            m > 0,
            k + trailing_zeros_spec(m as nat) == trailing_zeros_spec(n as nat),
            k <= n,
            k + m <= n + 1,
        decreases m,
    {
        m = m / 2;
        k += 1;
    }
    proof {
        lemma_trailing_zeros(n as nat);
    }
    k
}

/// Reverses the order of the first `2^log` elements by bit reversal of
/// their indices (`values[i]` and `values[rev_bits(i, log)]` change places);
/// the others stay.
pub fn bit_reverse_prefix<T>(values: &mut [T], log: usize)
    requires
        pow2(log as nat) <= old(values).len(),
    ensures
        final(values).len() == old(values).len(),
        forall|k: int|
            0 <= k < pow2(log as nat) ==> #[trigger] final(values)@[k] == old(values)@[rev_bits(k, log as nat)],
        forall|k: int|
            pow2(log as nat) <= k < old(values).len() ==> #[trigger] final(values)@[k] == old(values)@[k],
{
    let ghost v0 = values@;
    let ghost l = log as nat;
    let mut m: usize = 1;
    let mut e: usize = 0;
    proof {
        vstd::arithmetic::power2::lemma2_to64();
    }
    while e < log
        invariant
            e <= log,
            m == pow2(e as nat),
            pow2(log as nat) <= values.len(),
        decreases log - e,
    {
        proof {
            lemma_pow2_unfold((e + 1) as nat);
            if e + 1 < log {
                vstd::arithmetic::power2::lemma_pow2_strictly_increases((e + 1) as nat, log as nat);
            }
        }
        m = m * 2;
        e += 1;
    }
    let mut i: usize = 0;
    while i < m
        invariant
            values.len() == v0.len(),
            m == pow2(l),
            m <= v0.len(),
            l == log,
            i <= m,
            forall|k: int|
                0 <= k < m && (k < i || 0 <= rev_bits(k, l) < i) ==> #[trigger] values@[k]
                    == v0[rev_bits(k, l)],
            forall|k: int|
                0 <= k < m && !(k < i || 0 <= rev_bits(k, l) < i) ==> #[trigger] values@[k] == v0[k],
            forall|k: int| m <= k < v0.len() ==> #[trigger] values@[k] == v0[k],
        decreases m - i,
    {
        let j = bit_reverse(i, log);
        proof {
            lemma_rev_bits_bound(i as int, l);
            lemma_rev_involution(i as int, l);
        }
        let ghost before = values@;
        if i < j {
            values.swap(i, j);
        }
        proof {
            assert forall|k: int| 0 <= k < m && (k < i + 1 || 0 <= rev_bits(k, l) < i + 1) implies #[trigger] values@[k]
                == v0[rev_bits(k, l)] by {
                lemma_rev_involution(k, l);
                lemma_rev_bits_bound(k, l);
                if k == i || k == j {
                } else {
                    assert(values@[k] == before[k]);
                }
            }
            assert forall|k: int| 0 <= k < m && !(k < i + 1 || 0 <= rev_bits(k, l) < i + 1) implies #[trigger] values@[k]
                == v0[k] by {
                lemma_rev_involution(k, l);
                assert(values@[k] == before[k]);
            }
            assert forall|k: int| m <= k < v0.len() implies #[trigger] values@[k] == v0[k] by {
                assert(values@[k] == before[k]);
            }
        }
        i += 1;
    }
    proof {
        assert forall|k: int| 0 <= k < pow2(log as nat) implies #[trigger] values@[k] == v0[rev_bits(k, l)] by {
            lemma_rev_bits_bound(k, l);
        }
    }
}


/// `2^l` has `l` trailing zero bits.
pub proof fn lemma_trailing_zeros_pow2(l: nat)
    ensures
        trailing_zeros_spec(pow2(l)) == l,
    decreases l,
{
    vstd::arithmetic::power2::lemma2_to64();
    if l > 0 {
        lemma_pow2_unfold(l);
        lemma_trailing_zeros_pow2((l - 1) as nat);
        vstd::arithmetic::power2::lemma_pow2_pos((l - 1) as nat);
        assert(pow2(l) / 2 == pow2((l - 1) as nat));
    }
}

} // verus!
