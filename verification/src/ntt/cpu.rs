//! The reference number-theoretic transform over `u32` residues, and its use
//! on BabyBear elements.

use vstd::prelude::*;
use vstd::arithmetic::div_mod::*;
use vstd::arithmetic::mul::*;
use vstd::arithmetic::power::*;
use crate::math::primes::{is_prime, lemma_divides_trans, lemma_divisor_le, lemma_euclid};
use crate::math::binomial::lemma_fermat_prime;
use crate::math::cyclic::{lemma_full_order, lemma_full_order_injective, no_proper_order};
use crate::field::babybear::{BabyBear, BABYBEAR_PRIME};
use super::babybear_roots::{
    babybear_roots, lemma_babybear_least_generator, lemma_babybear_pow2_fermat,
    lemma_babybear_root_table,
};
use super::dft::{
    dft_at, is_reduced, is_root_table, lemma_fft_inverse, lemma_fft_inverse_first, lemma_fft_is_dft,
};
use super::transform::{
    bit_reversed, evens, fft, ints, is_pow2, lemma_bit_reversed_even_bound, lemma_bit_reversed_is_partial,
    lemma_bit_reversed_len, lemma_fft_len, lemma_ints_bit_reversed, lemma_partial_full, lemma_pow2_between,
    lemma_pow2_divides, lemma_pow2_even, lemma_pow2_pos, lemma_stage_step, odds, partial_fft, stage, butterfly, inverse_roots, scale_mod,
};

verus! {

/// Whether `n` is a power of two.
pub fn is_power_of_two(n: usize) -> (r: bool)
    ensures
        r == is_pow2(n as nat),
{
    let mut m = n;
    while m > 1 && m % 2 == 0
        invariant
            is_pow2(m as nat) == is_pow2(n as nat),
        decreases m,
    {
        m = m / 2;
    }
    m == 1
}

/// The smallest power of two that is at least `n` (1 for 0).
pub open spec fn next_pow2(n: nat) -> nat
    decreases n,
{
    if n <= 1 {
        1
    } else {
        2 * next_pow2(((n + 1) / 2) as nat)
    }
}

/// `next_pow2(n)` is a power of two, at least `n`, and the least such.
pub proof fn lemma_next_pow2(n: nat)
    ensures
        is_pow2(next_pow2(n)),
        next_pow2(n) >= n,
        next_pow2(n) == 1 || next_pow2(n) / 2 < n,
    decreases n,
{
    if n > 1 {
        let m = ((n + 1) / 2) as nat;
        lemma_next_pow2(m);
        let q = next_pow2(m);
        assert(is_pow2(2 * q)) by {
            assert((2 * q) as nat / 2 == q);
        }
        if q > 1 {
            lemma_pow2_even(q);
        }
    }
}

/// The least power of two at least `n` is at most any power of two at
/// least `n`, `2^27` in particular.
pub proof fn lemma_next_pow2_bound(n: nat)
    requires
        n <= vstd::arithmetic::power2::pow2(27),
    ensures
        is_pow2(next_pow2(n)),
        n <= next_pow2(n) <= vstd::arithmetic::power2::pow2(27),
{
    lemma_next_pow2(n);
    let q = vstd::arithmetic::power2::pow2(27);
    super::bitrev::lemma_pow2_is_pow2(27);
    vstd::arithmetic::power2::lemma2_to64();
    if next_pow2(n) > q {
        lemma_pow2_between(q, next_pow2(n));
    }
}

/// Two least powers of two at least `n` are the same.
proof fn lemma_least_pow2_unique(a: nat, b: nat, n: nat)
    requires
        is_pow2(a),
        is_pow2(b),
        a >= n,
        b >= n,
        a == 1 || a / 2 < n,
        b == 1 || b / 2 < n,
    ensures
        a == b,
{
    lemma_pow2_pos(a);
    lemma_pow2_pos(b);
    if a < b {
        lemma_pow2_between(a, b);
    } else if b < a {
        lemma_pow2_between(b, a);
    }
}

/// The smallest power of two that is at least `n` (1 for 0).
pub fn next_power_of_two(n: usize) -> (r: usize)
    requires
        n <= usize::MAX / 2 + 1,
    ensures
        r == next_pow2(n as nat),
        is_pow2(r as nat),
        r >= n,
        r == 1 || r / 2 < n,
{
    let mut r: usize = 1;
    assert(is_pow2(1));
    while r < n
        invariant
            is_pow2(r as nat),
            r == 1 || r / 2 < n,
            n <= usize::MAX / 2 + 1,
        decreases usize::MAX - r,
    {
        assert(is_pow2((2 * r) as nat)) by {
            assert((2 * r) as nat / 2 == r);
        }
        r = r * 2;
    }
    proof {
        lemma_next_pow2(n as nat);
        lemma_least_pow2_unique(r as nat, next_pow2(n as nat), n as nat);
    }
    r
}

/// The bit-reversal permutation: the even-indexed values (themselves
/// permuted), then the odd-indexed ones.
fn reverse(values: Vec<u32>) -> (r: Vec<u32>)
    ensures
        r@ == bit_reversed(values@),
    decreases values.len(),
{
    if values.len() <= 1 {
        return values;
    }
    let n = values.len();
    let mut evens_v: Vec<u32> = Vec::new();
    let mut odds_v: Vec<u32> = Vec::new();
    let mut i: usize = 0;
    while i < n
        invariant
            n == values.len(),
            0 <= i <= n,
            evens_v.len() == (i + 1) / 2,
            odds_v.len() == i / 2,
            forall|k: int| 0 <= k < evens_v.len() ==> evens_v[k] == values[2 * k],
            forall|k: int| 0 <= k < odds_v.len() ==> odds_v[k] == values[2 * k + 1],
        decreases n - i,
    {
        if i % 2 == 0 {
            evens_v.push(values[i]);
        } else {
            odds_v.push(values[i]);
        }
        i += 1;
    }
    assert(evens_v@ =~= evens(values@));
    assert(odds_v@ =~= odds(values@));
    let mut out = reverse(evens_v);
    let mut rest = reverse(odds_v);
    out.append(&mut rest);
    out
}

/// Index facts for position `j` (and its partner) in the block starting at `q * len`.
pub(crate) proof fn lemma_block_position(q: int, len: int, j: int, n: int)
    requires
        len >= 2,
        len % 2 == 0,
        0 <= j < len / 2,
        0 <= q,
        q * len < n,
        n % len == 0,
    ensures
        (q * len + j) % len == j,
        (q * len + j + len / 2) % len == j + len / 2,
        q * len + len <= n,
        j * (n / len) < n / 2,
        (q + 1) * len == q * len + len,
{
    lemma_mod_multiples_vanish(q, j, len);
    lemma_small_mod(j as nat, len as nat);
    lemma_mod_multiples_vanish(q, j + len / 2, len);
    lemma_small_mod((j + len / 2) as nat, len as nat);
    lemma_mul_is_commutative(q, len);
    lemma_fundamental_div_mod(n, len);
    let k = n / len;
    lemma_mul_is_commutative(k, len);
    assert(q < k) by {
        if q >= k {
            lemma_mul_inequality(k, q, len);
        }
    }
    lemma_mul_inequality(q + 1, k, len);
    lemma_mul_is_distributive_add_other_way(len, q, 1);
    lemma_mul_strict_inequality(j, len / 2, k);
    assert((len / 2) * k * 2 == len * k) by {
        lemma_mul_is_associative(len / 2, k, 2);
        lemma_mul_is_commutative(k, 2);
        lemma_mul_is_associative(len / 2, 2, k);
    }
}

/// The forward transform of `values` (a power-of-two number of them) with the
/// twiddles `roots`, modulo `modulus`: bit reversal, then one in-place
/// butterfly stage per block size 2, 4, ..., n.
pub fn ntt(values: Vec<u32>, roots: Vec<u32>, modulus: u32) -> (r: Vec<u32>)
    requires
        values.len() == roots.len(),
        values.len() == 0 || is_pow2(values.len() as nat),
        values.len() >= 2 ==> modulus > 0,
        values.len() >= 4 ==> modulus <= 0x8000_0000,
        values.len() >= 2 ==> forall|i: int|
            0 <= i < values.len() / 2 ==> values[i] + modulus <= u32::MAX,
    ensures
        r.len() == values.len(),
        ints(r@) == fft(ints(values@), ints(roots@), modulus as int),
{
    let n = values.len();
    let m = modulus;
    let ghost v = ints(values@);
    let ghost rs = ints(roots@);
    let ghost vals = values@;
    let mut coeffs = reverse(values);
    proof {
        lemma_bit_reversed_len(vals);
        lemma_ints_bit_reversed(vals);
        lemma_bit_reversed_is_partial(v, rs, m as int);
        if n >= 2 {
            lemma_bit_reversed_even_bound(v, u32::MAX - m);
            assert forall|i: int| 0 <= i < n && i % 2 < 1 implies coeffs[i] + m <= u32::MAX by {
                assert(ints(coeffs@)[i] == bit_reversed(v)[i]);
            }
        }
        assert(is_pow2(2)) by {
            reveal_with_fuel(is_pow2, 2);
        }
    }
    let mut len: usize = 2;
    while len <= n
        invariant_except_break
            n == coeffs.len(),
            n == roots.len(),
            n == v.len(),
            v == ints(vals),
            rs == ints(roots@),
            n == 0 || is_pow2(n as nat),
            n >= 2 ==> m > 0,
            n >= 4 ==> m <= 0x8000_0000,
            2 <= len,
            is_pow2(len as nat),
            n >= 2 ==> len <= n,
            ints(coeffs@) == partial_fft(v, rs, m as int, len as int / 2),
            n >= 2 ==> forall|i: int|
                0 <= i < n && i % (len as int) < len / 2 ==> coeffs[i] + m <= u32::MAX,
        ensures
            n == coeffs.len(),
            ints(coeffs@) == fft(v, rs, m as int),
        decreases n - len,
    {
        let half = len / 2;
        let stride = n / len;
        proof {
            lemma_pow2_divides(len as nat, n as nat);
            lemma_pow2_even(len as nat);
        }
        let ghost s0 = ints(coeffs@);
        let ghost c0 = coeffs@;
        let ghost target = stage(s0, rs, m as int, len as int);
        assert(s0.len() as int / (len as int) == stride);
        let mut start: usize = 0;
        let ghost mut q: int = 0;
        while start < n
            invariant
                n == coeffs.len(),
                n == roots.len(),
                rs == ints(roots@),
                s0 == ints(c0),
                c0.len() == n,
                target == stage(s0, rs, m as int, len as int),
                s0.len() as int / (len as int) == stride,
                half == len / 2,
                stride == n / len,
                len >= 2,
                len % 2 == 0,
                n % len == 0,
                m > 0,
                forall|i: int| 0 <= i < n && i % (len as int) < half ==> c0[i] + m <= u32::MAX,
                0 <= q,
                start == q * len,
                start <= n,
                forall|i: int| 0 <= i < start ==> coeffs[i] == target[i],
                forall|i: int| start <= i < n ==> coeffs[i] == c0[i],
            decreases n - start,
        {
            let mut j: usize = 0;
            proof {
                lemma_block_position(q, len as int, 0, n as int);
            }
            while j < half
                invariant
                    n == coeffs.len(),
                    n == roots.len(),
                    rs == ints(roots@),
                    s0 == ints(c0),
                    c0.len() == n,
                    target == stage(s0, rs, m as int, len as int),
                    s0.len() as int / (len as int) == stride,
                    half == len / 2,
                    stride == n / len,
                    len >= 2,
                    len % 2 == 0,
                    n % len == 0,
                    m > 0,
                    forall|i: int| 0 <= i < n && i % (len as int) < half ==> c0[i] + m <= u32::MAX,
                    0 <= q,
                    start == q * len,
                    start + len <= n,
                    0 <= j <= half,
                    forall|i: int| 0 <= i < start ==> coeffs[i] == target[i],
                    forall|i: int| start <= i < start + j ==> coeffs[i] == target[i],
                    forall|i: int|
                        start + half <= i < start + half + j ==> coeffs[i] == target[i],
                    forall|i: int|
                        (start + j <= i < start + half) || (start + half + j <= i < n)
                            ==> coeffs[i] == c0[i],
                decreases half - j,
            {
                proof {
                    lemma_block_position(q, len as int, j as int, n as int);
                }
                let w = roots[j * stride] as u64;
                let a = coeffs[start + j];
                let hi = coeffs[start + j + half] as u64;
                assert(hi * w <= u64::MAX) by (nonlinear_arith)
                    requires
                        hi <= u32::MAX,
                        w <= u32::MAX,
                ;
                let b = (hi * w % (m as u64)) as u32;
                assert(a == c0[start + j]);
                assert(hi == c0[start + j + half]);
                assert((start + j) as int % (len as int) == j);
                assert(c0[start + j] + m <= u32::MAX);
                assert(s0[start + j] == a);
                assert(s0[start + j + half] == hi);
                assert(rs[j * stride] == w);
                assert(target[start + j] == butterfly(s0, rs, m as int, len as int, start + j));
                assert(target[start + j + half] == butterfly(s0, rs, m as int, len as int, start + j + half));
                proof {
                    lemma_mul_is_commutative(hi as int, w as int);
                }
                assert(target[start + j] == (a + b) % (m as int));
                assert(target[start + j + half] == (a + m - b) % (m as int));
                coeffs.set(start + j, (a + b) % m);
                coeffs.set(start + j + half, (a + m - b) % m);
                j += 1;
            }
            start += len;
            proof {
                q = q + 1;
                lemma_mul_is_distributive_add_other_way(len as int, q - 1, 1);
            }
        }
        assert(ints(coeffs@) =~= target);
        proof {
            if n >= 2 {
                lemma_stage_step(v, rs, m as int, len as int);
            }
        }
        if len == n {
            break;
        }
        proof {
            lemma_pow2_between(len as nat, n as nat);
            assert forall|i: int|
                0 <= i < n && i % ((2 * len) as int) < len implies coeffs[i] + m <= u32::MAX by {
                assert(coeffs[i] == target[i]);
            }
        }
        len = len * 2;
        assert((len / 2) as int == len as int / 2);
    }
    proof {
        lemma_partial_full(v, rs, m as int);
    }
    coeffs
}

/// The inverse transform: the forward transform with the twiddles
/// `roots[0], roots[n-1], ..., roots[1]`, then every value times
/// `n^(modulus-2) mod modulus` (the inverse of `n` when `modulus` is prime).
pub fn intt(values: Vec<u32>, roots: Vec<u32>, modulus: u32) -> (r: Vec<u32>)
    requires
        values.len() == roots.len(),
        roots.len() >= 1,
        is_pow2(values.len() as nat),
        modulus >= 2,
        values.len() >= 4 ==> modulus <= 0x8000_0000,
        values.len() >= 2 ==> forall|i: int|
            0 <= i < values.len() / 2 ==> values[i] + modulus <= u32::MAX,
    ensures
        r.len() == values.len(),
        forall|i: int| 0 <= i < r.len() ==> r[i] < modulus,
        ints(r@) == scale_mod(
            fft(ints(values@), inverse_roots(ints(roots@)), modulus as int),
            pow((values.len() as u32) as int, (modulus - 2) as nat) % (modulus as int),
            modulus as int,
        ),
{
    let n = values.len();
    let ghost vals = values@;
    let mut inv_roots: Vec<u32> = Vec::with_capacity(n);
    inv_roots.push(roots[0]);
    let mut k: usize = n;
    while k > 1
        invariant
            n == roots.len(),
            1 <= k <= n,
            inv_roots.len() == n - k + 1,
            inv_roots[0] == roots[0],
            forall|i: int| 1 <= i < inv_roots.len() ==> inv_roots[i] == roots[n - i],
        decreases k,
    {
        k -= 1;
        inv_roots.push(roots[k]);
    }
    assert(ints(inv_roots@) =~= inverse_roots(ints(roots@)));
    let coeffs = ntt(values, inv_roots, modulus);
    let n_inv = pow_mod(n as u32, modulus - 2, modulus) as u64;
    proof {
        if modulus - 2 == 0 {
            lemma_pow0((n as u32) as int);
            lemma_small_mod(1, modulus as nat);
        }
    }
    assert(n_inv < modulus);
    let ghost c0 = ints(coeffs@);
    let mut out: Vec<u32> = Vec::with_capacity(n);
    let mut i: usize = 0;
    while i < n
        invariant
            n == coeffs.len(),
            c0 == ints(coeffs@),
            n_inv < modulus,
            out.len() == i,
            i <= n,
            forall|j: int|
                0 <= j < i ==> out[j] == (c0[j] * n_inv) % (modulus as int),
            forall|j: int| 0 <= j < i ==> out[j] < modulus,
        decreases n - i,
    {
        let c = coeffs[i] as u64;
        assert(c * n_inv <= u64::MAX) by (nonlinear_arith)
            requires
                c <= u32::MAX,
                n_inv <= u32::MAX,
        ;
        out.push((c * n_inv % modulus as u64) as u32);
        i += 1;
    }
    assert(ints(out@) =~= scale_mod(c0, n_inv as int, modulus as int));
    out
}

/// `out` lists exactly the distinct primes dividing `m`, in increasing order.
pub open spec fn is_prime_factor_list(out: Seq<u32>, m: int) -> bool {
    &&& forall|i: int, j: int| 0 <= i < j < out.len() ==> out[i] < out[j]
    &&& forall|i: int| 0 <= i < out.len() ==> is_prime(out[i] as int) && m % (out[i] as int) == 0
    &&& m >= 1 ==> forall|q: int| #[trigger] is_prime(q) && m % q == 0 ==> out.contains(q as u32)
}

/// A number with no divisor below `q`, and smaller than `q * q`, is prime.
pub(crate) proof fn lemma_no_small_divisor_prime(m: int, q: int)
    requires
        m >= 2,
        q >= 2,
        m < q * q,
        forall|d: int| 2 <= d < q ==> #[trigger] (m % d) != 0,
    ensures
        is_prime(m),
{
    assert forall|d: int| 2 <= d < m implies #[trigger] (m % d) != 0 by {
        if m % d == 0 && d >= q {
            lemma_fundamental_div_mod(m, d);
            let k = m / d;
            assert(m == d * k);
            if k <= 0 {
                lemma_mul_inequality(k, 0, d);
                lemma_mul_is_commutative(k, d);
            }
            if k == 1 {
                lemma_mul_basics(d);
            }
            assert(k >= 2);
            lemma_mul_is_commutative(d, k);
            assert(m % k == 0) by {
                lemma_mod_multiples_basic(d, k);
            }
            if k >= q {
                lemma_mul_inequality(q, d, q);
                lemma_mul_inequality(q, k, d);
                lemma_mul_is_commutative(q, d);
            }
        }
    }
}

/// The distinct prime factors of `m` in increasing order, by trial division.
fn prime_factors(m: u32) -> (out: Vec<u32>)
    ensures
        is_prime_factor_list(out@, m as int),
{
    let ghost m0 = m as int;
    let mut m = m;
    let mut out: Vec<u32> = Vec::new();
    let mut q: u32 = 2;
    while q <= m / q
        invariant
            2 <= q <= 65536,
            m0 >= 1 ==> m >= 1,
            m0 == 0 ==> m == 0,
            m >= 1 ==> m0 % (m as int) == 0,
            forall|d: int| 2 <= d < q ==> #[trigger] ((m as int) % d) != 0 || m == 0,
            forall|i: int, j: int| 0 <= i < j < out.len() ==> out[i] < out[j],
            forall|i: int| 0 <= i < out.len() ==> out[i] < q,
            forall|i: int| 0 <= i < out.len() ==> is_prime(out[i] as int) && m0 % (out[i] as int) == 0,
            m0 >= 1 ==> forall|p: int|
                #[trigger] is_prime(p) && m0 % p == 0 ==> (p < q ==> out@.contains(p as u32)) && (p >= q ==> (m as int) % p == 0),
        decreases 65536 - q,
    {
        proof {
            lemma_fundamental_div_mod(m as int, q as int);
            lemma_mod_bound(m as int, q as int);
            lemma_mul_inequality(q as int, (m / q) as int, q as int);
            lemma_mul_is_commutative(q as int, (m / q) as int);
            assert(q as int * q as int <= m);
        }
        let ghost m_start = m as int;
        let ghost out_prev = out@;
        if m % q == 0 {
            proof {
                if m == 0 {
                    assert(false) by (nonlinear_arith)
                        requires q >= 2, q as int * q as int <= m, m == 0;
                }
                assert forall|d: int| 2 <= d < q implies #[trigger] ((q as int) % d) != 0 by {
                    if (q as int) % d == 0 {
                        lemma_divides_trans(d, q as int, m as int);
                    }
                }
                lemma_divides_trans(q as int, m as int, m0);
            }
            out.push(q);
            let ghost m_before = m as int;
            while m % q == 0
                invariant
                    2 <= q,
                    m >= 1,
                    m_before % (m as int) == 0,
                    m_before >= 1,
                    m as int <= m_before,
                    m0 % m_before == 0,
                    forall|d: int| 2 <= d < q ==> #[trigger] ((m as int) % d) != 0,
                    m0 >= 1 ==> forall|p: int|
                        #[trigger] is_prime(p) && m0 % p == 0 && p > q ==> (m as int) % p == 0,
                decreases m,
            {
                let ghost m_old = m as int;
                proof {
                    lemma_fundamental_div_mod(m as int, q as int);
                }
                m = m / q;
                proof {
                    let k = m as int;
                    assert(m_old == q * k);
                    if k <= 0 {
                        lemma_mul_inequality(k, 0, q as int);
                        lemma_mul_is_commutative(k, q as int);
                    }
                    lemma_mod_multiples_basic(q as int, k);
                    lemma_mul_is_commutative(q as int, k);
                    assert(m_old % k == 0);
                    lemma_divides_trans(k, m_old, m_before);
                    assert forall|d: int| 2 <= d < q implies #[trigger] ((m as int) % d) != 0 by {
                        if (m as int) % d == 0 {
                            lemma_divides_trans(d, k, m_old);
                        }
                    }
                    if m0 >= 1 {
                        assert forall|p: int| #[trigger] is_prime(p) && m0 % p == 0 && p > q
                            implies (m as int) % p == 0 by {
                            lemma_euclid(q as int, k, p);
                            if (q as int) % p == 0 {
                                lemma_divisor_le(p, q as int);
                            }
                        }
                    }
                    lemma_mul_inequality(1, q as int, k);
                    lemma_mul_inequality(2, q as int, k);
                }
            }
            proof {
                lemma_divides_trans(m as int, m_before, m0);
            }
        }
        assert(m as int <= m_start);
        proof {
            assert forall|d: int| 2 <= d < q + 1 implies #[trigger] ((m as int) % d) != 0 || m == 0 by {
            }
            if m0 >= 1 {
                assert forall|p: int| #[trigger] is_prime(p) && m0 % p == 0
                    implies (p < q + 1 ==> out@.contains(p as u32)) && (p >= q + 1 ==> (m as int) % p == 0) by {
                    if p == q {
                        assert(m_start % p == 0);
                        assert(out[out.len() - 1] == q);
                    } else if p < q {
                        assert(out_prev.contains(p as u32));
                        let k = choose|k: int| 0 <= k < out_prev.len() && out_prev[k] == p as u32;
                        assert(out@[k] == p as u32);
                    } else {
                        assert(m_start % p == 0);
                    }
                }
            }
            assert(q < 65536) by (nonlinear_arith)
                requires (q as int) * (q as int) <= m_start, m_start <= u32::MAX, q >= 2;
            assert(q <= m_start) by (nonlinear_arith)
                requires (q as int) * (q as int) <= m_start, q >= 2;
        }
        q += 1;
    }
    proof {
        lemma_fundamental_div_mod(m as int, q as int);
        lemma_mod_bound(m as int, q as int);
        if m as int >= q as int * q as int {
            lemma_mul_is_commutative(q as int, (m / q) as int);
            if (m / q) < q {
                lemma_mul_inequality((m / q) as int + 1, q as int, q as int);
                lemma_mul_is_distributive_add_other_way(q as int, (m / q) as int, 1);
            }
        }
        assert(m < q as int * q as int);
    }
    let ghost out_before = out@;
    if m > 1 {
        proof {
            lemma_no_small_divisor_prime(m as int, q as int);
            lemma_divides_trans(m as int, m as int, m0);
            assert forall|i: int| 0 <= i < out.len() implies out[i] < m by {
                if m < q {
                    assert((m as int) % (m as int) == 0);
                }
            }
        }
        out.push(m);
    }
    proof {
        if m0 >= 1 {
            assert forall|p: int| #[trigger] is_prime(p) && m0 % p == 0 implies out@.contains(p as u32) by {
                if p < q {
                    assert(out_before.contains(p as u32));
                    let k = choose|k: int| 0 <= k < out_before.len() && out_before[k] == p as u32;
                    assert(out@[k] == p as u32);
                } else {
                    assert((m as int) % p == 0);
                    if m == 1 {
                        lemma_divisor_le(p, 1);
                    } else {
                        lemma_divisor_le(p, m as int);
                        if p < m {
                            assert((m as int) % p != 0);
                        }
                        assert(out[out.len() - 1] == m);
                    }
                }
            }
        }
    }
    out
}

/// `g` passes the generator test for `p`: for every prime `q` dividing
/// `p - 1`, `g^((p-1)/q) mod p` is not 1.
pub open spec fn passes_generator_test(g: int, p: int) -> bool {
    forall|q: int|
        #[trigger] is_prime(q) && (p - 1) % q == 0 ==> pow(g, ((p - 1) / q) as nat) % p != 1
}

/// Some `g` in `[2, p)` passes the generator test (true for every prime `p > 2`).
pub open spec fn has_generator(p: int) -> bool {
    exists|g: int| 2 <= g < p && #[trigger] passes_generator_test(g, p)
}

/// `g` is the least element of `[2, p)` that passes the generator test.
pub open spec fn is_least_generator(g: int, p: int) -> bool {
    &&& 2 <= g < p
    &&& passes_generator_test(g, p)
    &&& forall|h: int| 2 <= h < g ==> !#[trigger] passes_generator_test(h, p)
}

/// The least element of `[2, p)` that passes the generator test.
pub open spec fn least_generator(p: int) -> int {
    choose|g: int| is_least_generator(g, p)
}

/// The least generator is unique, so `least_generator` names it.
pub proof fn lemma_least_generator_unique(g: int, p: int)
    requires
        is_least_generator(g, p),
    ensures
        least_generator(p) == g,
{
    let h = least_generator(p);
    assert(is_least_generator(h, p));
    if h < g {
        assert(!passes_generator_test(h, p));
    }
    if g < h {
        assert(!passes_generator_test(g, p));
    }
}

/// The `n`-th root of unity that `roots_of_unity` uses: `g^((p-1)/n) mod p`
/// for the least generator `g`.
pub open spec fn root_of_unity_spec(n: int, p: int) -> int {
    pow(least_generator(p), ((p - 1) / n) as nat) % p
}

/// The smallest multiplicative generator of the field of size `p`: the least
/// `g >= 2` such that `g^((p-1)/q) != 1 mod p` for every prime `q` dividing `p - 1`.
fn find_generator(p: u32) -> (g: u32)
    requires
        has_generator(p as int),
    ensures
        is_least_generator(g as int, p as int),
{
    let factors = prime_factors(p - 1);
    let mut g: u32 = 2;
    loop
        invariant
            has_generator(p as int),
            is_prime_factor_list(factors@, p - 1),
            2 <= g <= p,
            forall|h: int| 2 <= h < g ==> !#[trigger] passes_generator_test(h, p as int),
        decreases p - g,
    {
        if g >= p {
            proof {
                let w = choose|w: int| 2 <= w < p && #[trigger] passes_generator_test(w, p as int);
                assert(!passes_generator_test(w, p as int));
            }
            return 0;
        }
        let mut ok = true;
        let mut k: usize = 0;
        while k < factors.len()
            invariant
                2 <= g < p,
                is_prime_factor_list(factors@, p - 1),
                0 <= k <= factors.len(),
                ok == forall|i: int|
                    0 <= i < k ==> pow(g as int, ((p - 1) / (factors[i] as int)) as nat) % (p as int) != 1,
            decreases factors.len() - k,
        {
            let q = factors[k];
            proof {
                assert(is_prime(q as int) && (p - 1) as int % (q as int) == 0);
                lemma_divisor_le(q as int, (p - 1) as int);
                lemma_div_by_self(q as int);
                lemma_div_is_ordered(q as int, (p - 1) as int, q as int);
            }
            if pow_mod(g, (p - 1) / q, p) == 1 {
                ok = false;
            }
            k += 1;
        }
        proof {
            if ok {
                assert forall|q: int| #[trigger] is_prime(q) && (p - 1) % q == 0 implies pow(
                    g as int,
                    ((p - 1) / q) as nat,
                ) % (p as int) != 1 by {
                    lemma_divisor_le(q, (p - 1) as int);
                    assert(factors@.contains(q as u32));
                    let i = choose|i: int| 0 <= i < factors.len() && factors@[i] == q as u32;
                    assert(pow(g as int, ((p - 1) / (factors[i] as int)) as nat) % (p as int) != 1);
                }
            } else {
                let i = choose|i: int|
                    0 <= i < k && !(pow(g as int, ((p - 1) / (factors[i] as int)) as nat) % (p as int) != 1);
                assert(is_prime(factors[i] as int));
            }
        }
        if ok {
            return g;
        }
        g += 1;
    }
}

/// Some element of `[2, p)` passing the test means a least one does.
proof fn lemma_least_generator_exists(w: int, p: int)
    requires
        2 <= w < p,
        passes_generator_test(w, p),
    ensures
        is_least_generator(least_generator(p), p),
    decreases w,
{
    if forall|h: int| 2 <= h < w ==> !#[trigger] passes_generator_test(h, p) {
        assert(is_least_generator(w, p));
    } else {
        let h = choose|h: int| 2 <= h < w && passes_generator_test(h, p);
        lemma_least_generator_exists(h, p);
    }
}

/// The root that `roots_of_unity` uses has order exactly `n`: for a prime
/// `p` with a generator and `n` dividing `p - 1`, its `n`-th power is 1, no
/// power `0 < d < n` is 1, and its powers `0, ..., n - 1` are pairwise
/// distinct mod `p`.
pub proof fn lemma_roots_of_unity_order(n: nat, p: int)
    requires
        is_prime(p),
        has_generator(p),
        n >= 1,
        (p - 1) % (n as int) == 0,
    ensures
        ({
            let w = root_of_unity_spec(n as int, p);
            &&& pow(w, n) % p == 1
            &&& forall|d: int| 0 < d < n ==> #[trigger] pow(w, d as nat) % p != 1
            &&& forall|i: int, j: int|
                0 <= i < j < n ==> #[trigger] (pow(w, i as nat) % p) != #[trigger] (pow(w, j as nat) % p)
        }),
{
    let wit = choose|g: int| 2 <= g < p && #[trigger] passes_generator_test(g, p);
    lemma_least_generator_exists(wit, p);
    let g = least_generator(p);
    let w = root_of_unity_spec(n as int, p);
    let q = (p - 1) / (n as int);
    lemma_fundamental_div_mod(p - 1, n as int);
    assert(q * n == p - 1) by {
        lemma_mul_is_commutative(q, n as int);
    }
    lemma_div_pos_is_pos(p - 1, n as int);
    assert(q >= 1) by {
        if q == 0 {
            lemma_mul_basics(n as int);
        }
    }
    lemma_small_mod(g as nat, p as nat);
    lemma_fermat_prime(p, g);
    assert(no_proper_order(g, p)) by {
        assert forall|r: int| #[trigger] is_prime(r) && (p - 1) % r == 0 implies pow(g, ((p - 1) / r) as nat) % p
            != 1 by {
            assert(passes_generator_test(g, p));
        }
    }
    // w^d = g^(q d) mod p
    assert forall|d: nat| d <= n implies #[trigger] pow(w, d) % p == pow(g, (q * d) as nat) % p by {
        lemma_pow_mod_noop(pow(g, q as nat), d, p);
        lemma_pow_multiplies(g, q as nat, d);
    }
    assert(pow(w, n) % p == pow(g, (q * n) as nat) % p);
    assert forall|d: int| 0 < d < n implies #[trigger] pow(w, d as nat) % p != 1 by {
        assert(pow(w, d as nat) % p == pow(g, (q * d) as nat) % p);
        assert(0 < q * d < p - 1) by (nonlinear_arith)
            requires
                q >= 1,
                0 < d < n,
                q * n == p - 1,
        ;
        lemma_full_order(g, p, (q * d) as nat);
    }
    assert forall|i: int, j: int| 0 <= i < j < n implies #[trigger] (pow(w, i as nat) % p) != #[trigger] (pow(
        w,
        j as nat,
    ) % p) by {
        assert(pow(w, i as nat) % p == pow(g, (q * i) as nat) % p);
        assert(pow(w, j as nat) % p == pow(g, (q * j) as nat) % p);
        assert(0 <= q * i < q * j < p - 1) by (nonlinear_arith)
            requires
                q >= 1,
                0 <= i < j < n,
                q * n == p - 1,
        ;
        lemma_full_order_injective(g, p, (q * i) as nat, (q * j) as nat);
    }
}

/// The `n` powers `omega^0, ..., omega^(n-1)` mod `p` of the `n`-th root of
/// unity `omega = g^((p-1)/n)`, `g` the smallest generator.
pub fn roots_of_unity(n: u32, p: u32) -> (roots: Vec<u32>)
    requires
        n >= 1,
        has_generator(p as int),
        (p - 1) % (n as int) == 0,
    ensures
        roots.len() == n,
        forall|i: int|
            0 <= i < n ==> roots[i] == pow(root_of_unity_spec(n as int, p as int), i as nat) % (
            p as int),
        is_prime(p as int) ==> forall|i: int, j: int|
            0 <= i < j < n ==> #[trigger] roots[i] != #[trigger] roots[j],
        is_prime(p as int) && n >= 2 ==> pow(roots[1] as int, n as nat) % (p as int) == 1,
        is_prime(p as int) && n >= 2 ==> forall|d: int|
            0 < d < n ==> #[trigger] pow(roots[1] as int, d as nat) % (p as int) != 1,
{
    let g = find_generator(p);
    proof {
        lemma_least_generator_unique(g as int, p as int);
        lemma_div_pos_is_pos((p - 1) as int, n as int);
        assert((p - 1) as int / (n as int) >= 1) by {
            lemma_divisor_le(n as int, (p - 1) as int);
            lemma_div_is_ordered(n as int, (p - 1) as int, n as int);
            lemma_div_by_self(n as int);
        }
    }
    let omega = pow_mod(g, (p - 1) / n, p);
    let ghost om = root_of_unity_spec(n as int, p as int);
    assert(omega == om);
    let mut roots: Vec<u32> = Vec::with_capacity(n as usize);
    let mut cur: u32 = 1;
    let mut i: u32 = 0;
    proof {
        reveal(pow);
        lemma_small_mod(1, p as nat);
    }
    while i < n
        invariant
            p >= 3,
            omega == om,
            omega < p,
            roots.len() == i,
            i <= n,
            cur == pow(om, i as nat) % (p as int),
            forall|j: int| 0 <= j < i ==> roots[j] == pow(om, j as nat) % (p as int),
        decreases n - i,
    {
        roots.push(cur);
        assert(cur as int * omega as int <= u64::MAX) by (nonlinear_arith)
            requires
                cur <= u32::MAX,
                omega <= u32::MAX,
        ;
        proof {
            reveal(pow);
            lemma_pow_adds(om, i as nat, 1);
            lemma_pow1(om);
            lemma_mul_mod_noop_left(pow(om, i as nat), om, p as int);
        }
        cur = ((cur as u64 * omega as u64) % p as u64) as u32;
        i += 1;
    }
    proof {
        if is_prime(p as int) {
            lemma_roots_of_unity_order(n as nat, p as int);
            if n >= 2 {
                lemma_pow1(om);
                lemma_mod_twice(pow(least_generator(p as int), ((p - 1) as int / (n as int)) as nat), p as int);
                assert(roots[1] == om);
            }
        }
    }
    roots
}

/// The values of BabyBear elements as integers.
pub open spec fn bb_ints(s: Seq<BabyBear>) -> Seq<int> {
    s.map_values(|x: BabyBear| x.value as int)
}

/// The forward transform over BabyBear: the radix-2 transform with the powers
/// of the `n`-th root of unity, each output reduced.
pub open spec fn ntt_babybear_spec(v: Seq<int>) -> Seq<int> {
    let r = fft(v, babybear_roots(v.len()), BABYBEAR_PRIME as int);
    Seq::new(v.len(), |i: int| r[i] % (BABYBEAR_PRIME as int))
}

/// The inverse transform over BabyBear: the transform with the inverse
/// twiddles, scaled by `n^(p-2) mod p`.
pub open spec fn intt_babybear_spec(v: Seq<int>) -> Seq<int> {
    scale_mod(
        fft(v, inverse_roots(babybear_roots(v.len())), BABYBEAR_PRIME as int),
        pow(v.len() as int, (BABYBEAR_PRIME - 2) as nat) % (BABYBEAR_PRIME as int),
        BABYBEAR_PRIME as int,
    )
}

/// The raw `u32` values of a slice of elements.
fn raw_values(values: &[BabyBear]) -> (raw: Vec<u32>)
    ensures
        raw.len() == values.len(),
        forall|i: int| 0 <= i < raw.len() ==> raw[i] == values[i].value,
        ints(raw@) == bb_ints(values@),
{
    let n = values.len();
    let mut raw: Vec<u32> = Vec::with_capacity(n);
    let mut i: usize = 0;
    while i < n
        invariant
            n == values.len(),
            i <= n,
            raw.len() == i,
            forall|j: int| 0 <= j < i ==> raw[j] == values[j].value,
        decreases n - i,
    {
        raw.push(values[i].value);
        i += 1;
    }
    assert(ints(raw@) =~= bb_ints(values@));
    raw
}

/// Writes `out[i] mod p` into `values[i]`.
fn store_values(values: &mut [BabyBear], out: &Vec<u32>)
    requires
        out.len() == old(values).len(),
    ensures
        final(values).len() == old(values).len(),
        forall|i: int|
            0 <= i < out.len() ==> #[trigger] final(values)[i].value == out[i] % BABYBEAR_PRIME,
{
    let n = values.len();
    let mut i: usize = 0;
    while i < n
        invariant
            n == values.len(),
            n == out.len(),
            i <= n,
            forall|j: int| 0 <= j < i ==> #[trigger] values[j].value == out[j] % BABYBEAR_PRIME,
        decreases n - i,
    {
        values[i] = BabyBear::new(out[i] as u64);
        i += 1;
    }
}

/// Forward transform in place over BabyBear elements (length a power of two
/// dividing `p - 1`).
pub fn ntt_babybear(values: &mut [BabyBear])
    requires
        is_pow2(old(values).len() as nat),
        (BABYBEAR_PRIME - 1) % (old(values).len() as int) == 0,
        forall|i: int|
            0 <= i < old(values).len() / 2 ==> old(values)[i].value + BABYBEAR_PRIME <= u32::MAX,
    ensures
        final(values).len() == old(values).len(),
        bb_ints(final(values)@) == ntt_babybear_spec(bb_ints(old(values)@)),
{
    let n = values.len();
    let ghost v = bb_ints(values@);
    let raw = raw_values(values);
    proof {
        lemma_babybear_least_generator();
        lemma_divisor_le(n as int, (BABYBEAR_PRIME - 1) as int);
        lemma_pow2_pos(n as nat);
    }
    assert((n as u32) as usize == n);
    let roots = roots_of_unity(n as u32, BABYBEAR_PRIME);
    assert(ints(roots@) =~= babybear_roots(n as nat));
    let out = ntt(raw, roots, BABYBEAR_PRIME);
    store_values(values, &out);
    assert(bb_ints(values@) =~= ntt_babybear_spec(v));
}

/// Inverse transform in place over BabyBear elements (length a power of two
/// dividing `p - 1`).
pub fn intt_babybear(values: &mut [BabyBear])
    requires
        is_pow2(old(values).len() as nat),
        (BABYBEAR_PRIME - 1) % (old(values).len() as int) == 0,
        forall|i: int|
            0 <= i < old(values).len() / 2 ==> old(values)[i].value + BABYBEAR_PRIME <= u32::MAX,
    ensures
        final(values).len() == old(values).len(),
        bb_ints(final(values)@) == intt_babybear_spec(bb_ints(old(values)@)),
{
    let n = values.len();
    let ghost v = bb_ints(values@);
    let raw = raw_values(values);
    proof {
        lemma_babybear_least_generator();
        lemma_divisor_le(n as int, (BABYBEAR_PRIME - 1) as int);
        lemma_pow2_pos(n as nat);
    }
    assert((n as u32) as usize == n);
    let roots = roots_of_unity(n as u32, BABYBEAR_PRIME);
    assert(ints(roots@) =~= babybear_roots(n as nat));
    let out = intt(raw, roots, BABYBEAR_PRIME);
    store_values(values, &out);
    assert forall|i: int| 0 <= i < n implies #[trigger] out[i] % BABYBEAR_PRIME == out[i] by {
        assert(ints(out@)[i] == out[i] as int);
        assert(out[i] < BABYBEAR_PRIME);
        lemma_small_mod(out[i] as nat, BABYBEAR_PRIME as nat);
    }
    assert(bb_ints(values@) =~= intt_babybear_spec(v));
}

/// The inverse transform undoes the forward one: for a root table of an
/// element `w` of order `n` (`w^(n/2) = -1`) modulo a prime that does not
/// divide `n`, `intt` applied to the output of `ntt` gives back the input.
/// (A size beyond `u32::MAX` is left out: `intt` takes the size as a `u32`.)
pub proof fn lemma_ntt_roundtrip(values: Seq<u32>, roots: Seq<u32>, modulus: u32, w: int)
    requires
        is_pow2(values.len()),
        values.len() <= u32::MAX,
        roots.len() == values.len(),
        is_prime(modulus as int),
        (values.len() as int) % (modulus as int) != 0,
        forall|i: int| 0 <= i < values.len() ==> #[trigger] values[i] < modulus,
        is_root_table(ints(roots), w, modulus as int),
    ensures
        scale_mod(
            fft(
                fft(ints(values), ints(roots), modulus as int),
                inverse_roots(ints(roots)),
                modulus as int,
            ),
            pow((values.len() as u32) as int, (modulus - 2) as nat) % (modulus as int),
            modulus as int,
        ) == ints(values),
{
    let n = values.len() as int;
    let m = modulus as int;
    let c = pow(n, (modulus - 2) as nat) % m;
    assert((values.len() as u32) as int == n);
    assert((n * c) % m == 1) by {
        lemma_fermat_prime(m, n);
        lemma_pow1(n);
        lemma_pow_adds(n, 1, (modulus - 2) as nat);
        lemma_mul_mod_noop_right(n, pow(n, (modulus - 2) as nat), m);
    }
    lemma_fft_inverse(ints(values), ints(roots), w, m, c);
}

/// The forward transform also undoes the inverse one: under the conditions
/// of `lemma_ntt_roundtrip`, `ntt` applied to the output of `intt` gives
/// back the input.
pub proof fn lemma_ntt_roundtrip_inverse_first(values: Seq<u32>, roots: Seq<u32>, modulus: u32, w: int)
    requires
        is_pow2(values.len()),
        values.len() <= u32::MAX,
        roots.len() == values.len(),
        is_prime(modulus as int),
        (values.len() as int) % (modulus as int) != 0,
        forall|i: int| 0 <= i < values.len() ==> #[trigger] values[i] < modulus,
        is_root_table(ints(roots), w, modulus as int),
    ensures
        fft(
            scale_mod(
                fft(ints(values), inverse_roots(ints(roots)), modulus as int),
                pow((values.len() as u32) as int, (modulus - 2) as nat) % (modulus as int),
                modulus as int,
            ),
            ints(roots),
            modulus as int,
        ) == ints(values),
{
    let n = values.len() as int;
    let m = modulus as int;
    let v = ints(values);
    let c = pow(n, (modulus - 2) as nat) % m;
    assert((values.len() as u32) as int == n);
    assert((n * c) % m == 1) by {
        lemma_fermat_prime(m, n);
        lemma_pow1(n);
        lemma_pow_adds(n, 1, (modulus - 2) as nat);
        lemma_mul_mod_noop_right(n, pow(n, (modulus - 2) as nat), m);
    }
    assert(is_reduced(v, m));
    if n == 1 {
        // a transform of one value leaves it as it is; the scale is 1 mod m
        let y = scale_mod(fft(v, inverse_roots(ints(roots)), m), c, m);
        assert(c % m == 1) by {
            lemma_mul_basics(c);
        }
        assert(y =~= v) by {
            assert(y[0] == (v[0] * c) % m);
            lemma_mul_mod_noop_right(v[0], c, m);
            lemma_mul_basics(v[0]);
            lemma_small_mod(v[0] as nat, m as nat);
        }
    } else {
        // n is even and m does not divide it, so m is odd
        crate::ntt::transform::lemma_pow2_even(n as nat);
        assert(m > 2) by {
            if m == 2 {
                lemma_mod_multiples_basic(n / 2, 2);
                lemma_mul_is_commutative(n / 2, 2);
            }
        }
        lemma_fft_inverse_first(v, ints(roots), w, m, c);
    }
}

/// For a prime modulus, an element of order exactly `n` (a power of two,
/// at least 2) has `w^(n/2) = m - 1`, so its power table is a root table
/// and the transform laws above apply to it.
pub proof fn lemma_order_half_power(n: nat, w: int, m: int)
    requires
        is_prime(m),
        is_pow2(n),
        n >= 2,
        pow(w, n) % m == 1,
        forall|d: int| 0 < d < n ==> #[trigger] pow(w, d as nat) % m != 1,
    ensures
        pow(w, n / 2) % m == m - 1,
{
    crate::ntt::transform::lemma_pow2_even(n);
    let h = n / 2;
    let x = pow(w, h) % m;
    let d: int = h as int;
    assert(0 < d < n);
    assert(pow(w, d as nat) % m != 1);
    lemma_pow_adds(w, h, h);
    lemma_mul_mod_noop(pow(w, h), pow(w, h), m);
    lemma_mod_bound(pow(w, h), m);
    crate::ntt::residues::lemma_square_root_of_one(x, m);
}

/// The transform evaluates: for a prime modulus, canonical values and the
/// powers `w^k mod m` of an element `w` of order exactly `n`, entry `k` of
/// `ntt` is `values[0] + values[1] w^k + ... + values[n-1] w^((n-1)k)` mod
/// `m`.
pub proof fn lemma_ntt_evaluates_order(values: Seq<u32>, roots: Seq<u32>, modulus: u32, w: int)
    requires
        is_pow2(values.len()),
        roots.len() == values.len(),
        is_prime(modulus as int),
        forall|i: int| 0 <= i < values.len() ==> #[trigger] values[i] < modulus,
        forall|k: int| 0 <= k < roots.len() ==> #[trigger] roots[k] == pow(w, k as nat) % (modulus as int),
        pow(w, values.len()) % (modulus as int) == 1,
        forall|d: int| 0 < d < values.len() ==> #[trigger] pow(w, d as nat) % (modulus as int) != 1,
    ensures
        forall|k: int|
            0 <= k < values.len() ==> #[trigger] fft(ints(values), ints(roots), modulus as int)[k] == dft_at(
                ints(values),
                w,
                k,
            ) % (modulus as int),
{
    let m = modulus as int;
    if values.len() >= 2 {
        lemma_order_half_power(values.len(), w, m);
    }
    assert(is_root_table(ints(roots), w, m));
    assert(is_reduced(ints(values), m));
    lemma_fft_is_dft(ints(values), ints(roots), w, m);
}

/// The forward BabyBear transform evaluates the polynomial with coefficients
/// `v` at the powers of the `n`-th root of unity: entry `k` is
/// `v[0] + v[1] w^k + ... + v[n-1] w^((n-1)k)` mod p.
pub proof fn lemma_ntt_babybear_evaluates(v: Seq<int>)
    requires
        is_pow2(v.len()),
        (BABYBEAR_PRIME - 1) % (v.len() as int) == 0,
        is_reduced(v, BABYBEAR_PRIME as int),
    ensures
        forall|k: int|
            0 <= k < v.len() ==> #[trigger] ntt_babybear_spec(v)[k] == dft_at(
                v,
                root_of_unity_spec(v.len() as int, BABYBEAR_PRIME as int),
                k,
            ) % (BABYBEAR_PRIME as int),
{
    let n = v.len();
    let p = BABYBEAR_PRIME as int;
    let w = root_of_unity_spec(n as int, p);
    lemma_babybear_root_table(n);
    lemma_fft_is_dft(v, babybear_roots(n), w, p);
    assert forall|k: int| 0 <= k < n implies #[trigger] ntt_babybear_spec(v)[k] == dft_at(v, w, k)
        % p by {
        lemma_mod_twice(dft_at(v, w, k), p);
    }
}

/// Over BabyBear, the inverse transform undoes the forward transform on
/// canonical values.
pub proof fn lemma_babybear_roundtrip(v: Seq<int>)
    requires
        is_pow2(v.len()),
        (BABYBEAR_PRIME - 1) % (v.len() as int) == 0,
        is_reduced(v, BABYBEAR_PRIME as int),
    ensures
        intt_babybear_spec(ntt_babybear_spec(v)) == v,
{
    let n = v.len();
    let p = BABYBEAR_PRIME as int;
    let w = root_of_unity_spec(n as int, p);
    let r = babybear_roots(n);
    lemma_babybear_root_table(n);
    lemma_fft_is_dft(v, r, w, p);
    let x = fft(v, r, p);
    assert(ntt_babybear_spec(v) =~= x) by {
        assert forall|k: int| 0 <= k < n implies #[trigger] ntt_babybear_spec(v)[k] == x[k] by {
            lemma_mod_twice(dft_at(v, w, k), p);
        }
    }
    lemma_babybear_pow2_fermat(n);
    let c = pow(n as int, (BABYBEAR_PRIME - 2) as nat) % p;
    assert((n * c) % p == 1) by {
        lemma_mul_mod_noop_right(n as int, pow(n as int, (BABYBEAR_PRIME - 2) as nat), p);
        lemma_pow1(n as int);
        lemma_pow_adds(n as int, 1, (BABYBEAR_PRIME - 2) as nat);
    }
    lemma_fft_inverse(v, r, w, p, c);
}

/// `b^e mod p` by square-and-multiply; 1 when `e` is 0.
fn pow_mod(b: u32, e: u32, p: u32) -> (r: u32)
    requires
        p > 0,
    ensures
        r == (if e == 0 { 1 } else { pow(b as int, e as nat) % (p as int) }),
{
    let ghost b0 = b;
    let ghost e0 = e;
    let mut b = b;
    let mut e = e;
    let mut r = 1u32;
    b = b % p;
    proof {
        lemma_pow_mod_noop(b0 as int, e0 as nat, p as int);
        lemma_pow0(b as int);
        lemma_mul_basics(pow(b as int, e as nat));
    }
    while e > 0
        invariant
            p > 0,
            b < p,
            (r * pow(b as int, e as nat)) % (p as int) == pow(b0 as int, e0 as nat) % (p as int),
            e0 == 0 ==> r == 1,
            e0 > 0 ==> (e > 0 || r < p),
            e <= e0,
        decreases e,
    {
        let ghost r_old = r;
        let ghost b_old = b;
        let ghost e_old = e;
        proof {
            assert(e % 2 == 1 || e % 2 == 0);
            assert((e & 1) == e % 2) by (bit_vector);
            assert(e >> 1 == e / 2) by (bit_vector);
            lemma_fundamental_div_mod(e as int, 2);
            lemma_pow_adds(b as int, (e / 2) as nat, (e / 2) as nat);
            lemma_pow_multiplies(b as int, 2, (e / 2) as nat);
            reveal(pow);
            lemma_pow1(b as int);
        }
        if e & 1 == 1 {
            assert(r as int * b as int <= u64::MAX) by (nonlinear_arith)
                requires
                    r <= u32::MAX,
                    b <= u32::MAX,
            ;
            r = ((r as u64 * b as u64) % p as u64) as u32;
        }
        assert(b as int * b as int <= u64::MAX) by (nonlinear_arith)
            requires
                b <= u32::MAX,
        ;
        b = ((b as u64 * b as u64) % p as u64) as u32;
        e >>= 1;
        proof {
            // pow(b_old, e_old) = pow(b_old^2, e_old / 2) * (b_old if e_old is odd)
            let sq = b_old as int * b_old as int;
            lemma_pow_adds(b_old as int, 1, 1);
            lemma_pow1(b_old as int);
            assert(pow(b_old as int, 2) == sq) by {
                reveal(pow);
                lemma_pow1(b_old as int);
            }
            lemma_pow_multiplies(b_old as int, 2, e as nat);
            lemma_pow_mod_noop(sq, e as nat, p as int);
            let rest = pow(sq, e as nat);
            let rest_m = pow(b as int, e as nat);
            assert(rest_m % (p as int) == rest % (p as int));
            if e_old % 2 == 1 {
                assert(e_old as nat == 2 * (e as nat) + 1);
                lemma_pow_adds(b_old as int, 2 * (e as nat), 1);
                // r_old * b_old^e_old = (r_old * b_old) * rest
                assert(r_old * pow(b_old as int, e_old as nat) == (r_old * b_old) * rest) by {
                    lemma_mul_is_associative(r_old as int, b_old as int, rest);
                    lemma_mul_is_commutative(rest, b_old as int);
                    lemma_mul_is_associative(r_old as int, rest, b_old as int);
                }
                lemma_mul_mod_noop_left(r_old * b_old, rest, p as int);
                lemma_mul_mod_noop_right(r as int, rest, p as int);
                lemma_mul_mod_noop_right(r as int, rest_m, p as int);
            } else {
                assert(e_old as nat == 2 * (e as nat));
                lemma_mul_mod_noop_right(r as int, rest, p as int);
                lemma_mul_mod_noop_right(r as int, rest_m, p as int);
            }
        }
    }
    proof {
        lemma_pow0(b as int);
        if e0 > 0 {
            lemma_small_mod(r as nat, p as nat);
        }
    }
    r
}

/// Over BabyBear, the forward transform undoes the inverse transform on
/// canonical values.
pub proof fn lemma_babybear_roundtrip_inverse_first(v: Seq<int>)
    requires
        is_pow2(v.len()),
        (BABYBEAR_PRIME - 1) % (v.len() as int) == 0,
        is_reduced(v, BABYBEAR_PRIME as int),
    ensures
        ntt_babybear_spec(intt_babybear_spec(v)) == v,
{
    let n = v.len();
    let p = BABYBEAR_PRIME as int;
    let w = root_of_unity_spec(n as int, p);
    let r = babybear_roots(n);
    lemma_babybear_root_table(n);
    lemma_babybear_pow2_fermat(n);
    let c = pow(n as int, (BABYBEAR_PRIME - 2) as nat) % p;
    assert((n * c) % p == 1) by {
        lemma_mul_mod_noop_right(n as int, pow(n as int, (BABYBEAR_PRIME - 2) as nat), p);
        lemma_pow1(n as int);
        lemma_pow_adds(n as int, 1, (BABYBEAR_PRIME - 2) as nat);
    }
    lemma_fft_inverse_first(v, r, w, p, c);
    let z = intt_babybear_spec(v);
    assert(z.len() == n) by {
        lemma_fft_len(v, inverse_roots(r), p);
    }
    let x = fft(z, r, p);
    assert(ntt_babybear_spec(z) =~= v) by {
        assert forall|k: int| 0 <= k < n implies #[trigger] ntt_babybear_spec(z)[k] == v[k] by {
            lemma_small_mod(v[k] as nat, p as nat);
        }
    }
}

} // verus!
