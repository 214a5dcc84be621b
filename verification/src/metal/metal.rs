//! Host-side helpers of the single-word GPU FFT: the bit-reversal
//! permutation applied before upload, the twiddle table, modular
//! exponentiation, and the reference inverse transform that checks the
//! GPU's forward transform.

use vstd::prelude::*;
use vstd::arithmetic::div_mod::*;
use vstd::arithmetic::mul::*;
use vstd::arithmetic::power::*;
use vstd::arithmetic::power2::pow2;
use crate::ntt::bitrev::{
    bit_reverse_prefix, lemma_bit_reversed_index, lemma_pow2_is_pow2, rev_bits, trailing_zeros,
    trailing_zeros_spec,
};
use crate::math::primes::{is_prime, lemma_divisor_le};
use crate::math::binomial::lemma_fermat_prime;
use crate::ntt::cpu::lemma_block_position;
use crate::ntt::transform::{
    butterfly, fft, ints, is_pow2, lemma_bit_reversed_is_partial, lemma_bit_reversed_len,
    lemma_partial_full, lemma_pow2_between, lemma_pow2_divides, lemma_pow2_even, lemma_pow2_pos,
    lemma_stage_step, partial_fft, stage,
};

verus! {

/// Bit-reversal permutation in place. The length must be even (or zero);
/// with `2^t` the largest power of two dividing it, the first `2^t`
/// values are permuted by reversing the `t` low bits of their index and the
/// others stay.
pub fn bitreverse_permute(values: &mut [u32])
    requires
        old(values).len() % 2 == 0,
    ensures
        final(values).len() == old(values).len(),
        old(values).len() > 0 ==> forall|k: int|
            0 <= k < pow2(trailing_zeros_spec(old(values).len() as nat)) ==> #[trigger] final(values)@[k]
                == old(values)@[rev_bits(k, trailing_zeros_spec(old(values).len() as nat))],
        old(values).len() > 0 ==> forall|k: int|
            pow2(trailing_zeros_spec(old(values).len() as nat)) <= k < old(values).len()
                ==> #[trigger] final(values)@[k] == old(values)@[k],
{
    let n = values.len();
    if n == 0 {
        return ;
    }
    let log_n = trailing_zeros(n);
    bit_reverse_prefix(values, log_n);
}

/// `b^e mod m`, except that exponent 0 gives 1 unreduced.
pub open spec fn mod_pow_result(b: int, e: nat, m: int) -> int {
    if e == 0 {
        1
    } else {
        pow(b, e) % m
    }
}

/// `base^exp mod m` by square-and-multiply (1 for exponent 0).
pub fn mod_pow(base: u64, exp: u64, m: u64) -> (r: u64)
    requires
        exp > 0 ==> m > 0,
        exp > 0 ==> base * base <= u64::MAX,
        exp > 0 ==> (m - 1) * (m - 1) <= u64::MAX,
    ensures
        r == mod_pow_result(base as int, exp as nat, m as int),
{
    if exp == 0 {
        return 1;
    }
    let ghost b0 = base as int;
    let ghost e0 = exp;
    let mut base = base;
    let mut exp = exp;
    let mut res: u64 = 1;
    proof {
        lemma_mul_basics(pow(base as int, exp as nat));
    }
    while exp > 0
        invariant
            m > 0,
            b0 * b0 <= u64::MAX,
            (m - 1) * (m - 1) <= u64::MAX,
            exp <= e0,
            exp == e0 ==> res == 1 && base == b0,
            exp != e0 ==> base < m,
            res == 1 || res < m,
            exp == 0 ==> res < m,
            (res * pow(base as int, exp as nat)) % (m as int) == pow(b0, e0 as nat) % (m as int),
        decreases exp,
    {
        let ghost r_old = res as int;
        let ghost b_old = base as int;
        let ghost e_old = exp;
        proof {
            assert((exp & 1) == exp % 2) by (bit_vector);
            assert(exp >> 1 == exp / 2) by (bit_vector);
            let mm = m as int;
            if b_old < m {
                assert(b_old * b_old <= (mm - 1) * (mm - 1)) by (nonlinear_arith)
                    requires
                        0 <= b_old < mm,
                ;
                if res < m {
                    assert(r_old * b_old <= (mm - 1) * (mm - 1)) by (nonlinear_arith)
                        requires
                            0 <= b_old < mm,
                            0 <= r_old < mm,
                    ;
                }
            }
        }
        if exp & 1 == 1 {
            res = (res * base) % m;
        }
        base = (base * base) % m;
        exp >>= 1;
        proof {
            let mm = m as int;
            let e = exp as nat;
            let sq = b_old * b_old;
            assert(pow(b_old, 2) == sq) by {
                reveal(pow);
                lemma_pow1(b_old);
            }
            lemma_pow_multiplies(b_old, 2, e);
            lemma_pow_mod_noop(sq, e, mm);
            let rest = pow(sq, e);
            let rest_m = pow(base as int, e);
            assert(rest_m % mm == rest % mm);
            if e_old % 2 == 1 {
                assert(e_old as nat == 2 * e + 1);
                lemma_pow_adds(b_old, 2 * e, 1);
                lemma_pow1(b_old);
                assert(r_old * pow(b_old, e_old as nat) == (r_old * b_old) * rest) by {
                    lemma_mul_is_associative(r_old, b_old, rest);
                    lemma_mul_is_commutative(rest, b_old);
                    lemma_mul_is_associative(r_old, rest, b_old);
                }
                lemma_mul_mod_noop_left(r_old * b_old, rest, mm);
                lemma_mul_mod_noop_right(res as int, rest, mm);
                lemma_mul_mod_noop_right(res as int, rest_m, mm);
            } else {
                assert(e_old as nat == 2 * e);
                lemma_mul_mod_noop_right(res as int, rest, mm);
                lemma_mul_mod_noop_right(res as int, rest_m, mm);
            }
            assert(exp == 0 ==> e_old == 1);
        }
    }
    proof {
        lemma_pow0(base as int);
        lemma_small_mod(res as nat, m as nat);
    }
    res
}

/// The twiddles for an `n`-point transform modulo `modulus`: the powers
/// `root^0, root^1, ...` of `root = 3^((modulus - 1) / n) mod modulus`
/// (3 being a primitive root of 257), the first one 1 and the others
/// reduced.
pub fn precompute_twiddles(n: u32, modulus: u32) -> (twiddles: Vec<u32>)
    requires
        n > 0,
        modulus > 0,
    ensures
        twiddles.len() == n,
        twiddles[0] == 1,
        forall|i: int|
            1 <= i < n ==> #[trigger] twiddles[i] == pow(
                mod_pow_result(3, ((modulus - 1) / (n as int)) as nat, modulus as int),
                i as nat,
            ) % (modulus as int),
{
    let g: u32 = 3;
    let exp = (modulus as u64 - 1) / n as u64;
    proof {
        assert((modulus - 1) * (modulus - 1) <= u64::MAX) by (nonlinear_arith)
            requires
                modulus <= u32::MAX,
                modulus > 0,
        ;
    }
    let root = mod_pow(g as u64, exp, modulus as u64);
    let ghost rt = root as int;
    let ghost mm = modulus as int;
    assert(root == 1 || root < modulus) by {
        if exp > 0 {
            lemma_mod_bound(pow(3, exp as nat), mm);
        }
    }
    let mut omega: u64 = 1;
    let mut twiddles: Vec<u32> = Vec::with_capacity(n as usize);
    let mut i: u32 = 0;
    while i < n
        invariant
            i <= n,
            mm == modulus,
            modulus > 0,
            root == 1 || root < modulus,
            rt == root,
            twiddles.len() == i,
            i == 0 ==> omega == 1,
            i >= 1 ==> omega == pow(rt, i as nat) % mm,
            i >= 1 ==> twiddles[0] == 1,
            forall|j: int| 1 <= j < i ==> #[trigger] twiddles[j] == pow(rt, j as nat) % mm,
        decreases n - i,
    {
        proof {
            if i >= 1 {
                lemma_mod_bound(pow(rt, i as nat), mm);
            }
            assert(omega * root <= u64::MAX) by (nonlinear_arith)
                requires
                    omega <= u32::MAX,
                    root <= u32::MAX,
            ;
            assert(omega <= u32::MAX) by {
                if i >= 1 {
                    lemma_mod_bound(pow(rt, i as nat), mm);
                }
            }
        }
        twiddles.push(omega as u32);
        let ghost o_old = omega as int;
        omega = (omega * root) % (modulus as u64);
        proof {
            lemma_pow_adds(rt, i as nat, 1);
            lemma_pow1(rt);
            if i >= 1 {
                lemma_mul_mod_noop_left(pow(rt, i as nat), rt, mm);
            } else {
                lemma_pow0(rt);
            }
        }
        i += 1;
    }
    twiddles
}


/// `w^0, w^1, ..., w^(n-1)`, each reduced mod `m`.
pub open spec fn power_table(w: int, n: nat, m: int) -> Seq<int> {
    Seq::new(n, |i: int| pow(w, i as nat) % m)
}

/// The inverse of the `n`-th root of unity that the inverse transform uses:
/// `root^(n-1)` for `root = 3^((m-1)/n)`, both as `mod_pow` gives them.
pub open spec fn ifft_root(n: nat, m: int) -> int {
    mod_pow_result(mod_pow_result(3, ((m - 1) / (n as int)) as nat, m), (n - 1) as nat, m)
}

/// The scale of the inverse transform: `n^(m-2)`, the inverse of `n` for a
/// prime `m`.
pub open spec fn ifft_scale(n: nat, m: int) -> int {
    mod_pow_result(n as int, (m - 2) as nat, m)
}

/// The inverse transform used to check the GPU: bit reversal, one butterfly
/// stage per block size with the powers of the inverse root as twiddles,
/// then every value times the inverse of `n`, all mod `modulus`.
pub fn cpu_ifft(values: Vec<u32>, n: usize, modulus: u32) -> (r: Vec<u32>)
    requires
        values.len() == n,
        n >= 2,
        is_pow2(n as nat),
        n <= u32::MAX,
        modulus >= 2,
        n >= 4 ==> modulus <= 0x8000_0000,
        forall|i: int| 0 <= i < n / 2 ==> values[i] + modulus <= u32::MAX,
    ensures
        r.len() == n,
        forall|i: int|
            0 <= i < n ==> #[trigger] r[i] == (fft(
                ints(values@),
                power_table(ifft_root(n as nat, modulus as int), n as nat, modulus as int),
                modulus as int,
            )[i] * ifft_scale(n as nat, modulus as int)) % (modulus as int),
{
    let m = modulus;
    let ghost mm = modulus as int;
    let ghost v = ints(values@);
    let ghost vals = values@;
    let g: u32 = 3;
    let exp = (modulus as u64 - 1) / n as u64;
    proof {
        assert((mm - 1) * (mm - 1) <= u64::MAX) by (nonlinear_arith)
            requires
                mm <= u32::MAX,
                mm >= 2,
        ;
    }
    let root = mod_pow(g as u64, exp, modulus as u64);
    assert(root < modulus) by {
        if exp > 0 {
            lemma_mod_bound(pow(3, exp as nat), mm);
        }
    }
    proof {
        assert(root * root <= u64::MAX) by (nonlinear_arith)
            requires
                root < 0x1_0000_0000,
        ;
    }
    let inv_root64 = mod_pow(root, (n as u64 - 1), modulus as u64);
    assert(inv_root64 < modulus) by {
        if n > 1 {
            lemma_mod_bound(pow(root as int, (n - 1) as nat), mm);
        }
    }
    let inv_root = inv_root64 as u32;
    let ghost wi = inv_root as int;
    let ghost rs = power_table(wi, n as nat, mm);
    assert(wi == ifft_root(n as nat, mm));
    let mut coeffs = values;
    let ghost l = crate::ntt_babybear::log2_spec(n as nat);
    proof {
        lemma_power_of_two_log(n as nat);
        crate::ntt::bitrev::lemma_trailing_zeros_pow2(l);
    }
    bitreverse_permute(coeffs.as_mut_slice());
    proof {
        lemma_bit_reversed_index(v, l);
        lemma_bit_reversed_len(v);
        lemma_bit_reversed_is_partial(v, rs, mm);
        assert(ints(coeffs@) =~= crate::ntt::transform::bit_reversed(v)) by {
            assert forall|k: int| 0 <= k < n implies ints(coeffs@)[k] == crate::ntt::transform::bit_reversed(
                v,
            )[k] by {
                crate::ntt::bitrev::lemma_rev_bits_bound(k, l);
            }
        }
        crate::ntt::transform::lemma_bit_reversed_even_bound(v, u32::MAX - mm);
        assert forall|i: int| 0 <= i < n && i % 2 < 1 implies coeffs[i] + m <= u32::MAX by {
            assert(ints(coeffs@)[i] == crate::ntt::transform::bit_reversed(v)[i]);
        }
        assert(is_pow2(2)) by {
            reveal_with_fuel(is_pow2, 2);
        }
    }
    let mut len: usize = 2;
    while len <= n
        invariant_except_break
            n == coeffs.len(),
            n == v.len(),
            rs.len() == n,
            rs == power_table(wi, n as nat, mm),
            wi == inv_root,
            inv_root < m,
            mm == m,
            is_pow2(n as nat),
            n >= 2,
            m >= 2,
            n >= 4 ==> m <= 0x8000_0000,
            2 <= len <= n,
            is_pow2(len as nat),
            ints(coeffs@) == partial_fft(v, rs, mm, len as int / 2),
            forall|i: int| 0 <= i < n && i % (len as int) < len / 2 ==> coeffs[i] + m <= u32::MAX,
        ensures
            n == coeffs.len(),
            ints(coeffs@) == fft(v, rs, mm),
            mm == m,
            m >= 2,
        decreases n - len,
    {
        let half = len / 2;
        let stride = n / len;
        proof {
            lemma_pow2_divides(len as nat, n as nat);
            lemma_pow2_even(len as nat);
            lemma_div_is_ordered(len as int, n as int, len as int);
            lemma_div_basics(len as int);
        }
        let ghost s0 = ints(coeffs@);
        let ghost c0 = coeffs@;
        let ghost target = stage(s0, rs, mm, len as int);
        assert(s0.len() as int / (len as int) == stride);
        let mut start: usize = 0;
        let ghost mut q: int = 0;
        while start < n
            invariant
                n == coeffs.len(),
                rs == power_table(wi, n as nat, mm),
                rs.len() == n,
                wi == inv_root,
                inv_root < m,
                mm == m,
                m >= 2,
                s0 == ints(c0),
                c0.len() == n,
                target == stage(s0, rs, mm, len as int),
                s0.len() as int / (len as int) == stride,
                half == len / 2,
                stride == n / len,
                stride >= 1,
                len >= 2,
                len % 2 == 0,
                n % len == 0,
                forall|i: int| 0 <= i < n && i % (len as int) < half ==> c0[i] + m <= u32::MAX,
                0 <= q,
                start == q * len,
                start <= n,
                forall|i: int| 0 <= i < start ==> coeffs[i] == target[i],
                forall|i: int| start <= i < n ==> coeffs[i] == c0[i],
            decreases n - start,
        {
            let mut w: u32 = 1;
            assert((inv_root as u64) * (inv_root as u64) <= u64::MAX) by (nonlinear_arith)
                requires
                    inv_root <= u32::MAX,
            ;
            assert(((m as u64) - 1) * ((m as u64) - 1) <= u64::MAX) by (nonlinear_arith)
                requires
                    m <= u32::MAX,
                    m >= 2,
            ;
            let w_len64 = mod_pow(inv_root as u64, stride as u64, m as u64);
            assert(w_len64 < m) by {
                lemma_mod_bound(pow(wi, stride as nat), mm);
            }
            let w_len = w_len64 as u32;
            let mut j: usize = 0;
            proof {
                lemma_block_position(q, len as int, 0, n as int);
                lemma_pow0(wi);
                lemma_small_mod(1, m as nat);
            }
            while j < half
                invariant
                    n == coeffs.len(),
                    rs == power_table(wi, n as nat, mm),
                    rs.len() == n,
                    wi == inv_root,
                    mm == m,
                    m >= 2,
                    w_len == pow(wi, stride as nat) % mm,
                    w == pow(wi, (j * stride) as nat) % mm,
                    s0 == ints(c0),
                    c0.len() == n,
                    target == stage(s0, rs, mm, len as int),
                    s0.len() as int / (len as int) == stride,
                    half == len / 2,
                    stride == n / len,
                    len >= 2,
                    len % 2 == 0,
                    n % len == 0,
                    forall|i: int| 0 <= i < n && i % (len as int) < half ==> c0[i] + m <= u32::MAX,
                    0 <= q,
                    start == q * len,
                    start + len <= n,
                    0 <= j <= half,
                    forall|i: int| 0 <= i < start ==> coeffs[i] == target[i],
                    forall|i: int| start <= i < start + j ==> coeffs[i] == target[i],
                    forall|i: int|
                        start + half <= i < start + half + j ==> coeffs[i] == target[i],
                    forall|i: int|
                        (start + j <= i < start + half) || (start + half + j <= i < n)
                            ==> coeffs[i] == c0[i],
                decreases half - j,
            {
                proof {
                    lemma_block_position(q, len as int, j as int, n as int);
                    lemma_mod_bound(pow(wi, (j * stride) as nat), mm);
                }
                let u = coeffs[start + j];
                let hi = coeffs[start + j + half] as u64;
                assert(hi * (w as u64) <= u64::MAX) by (nonlinear_arith)
                    requires
                        hi <= u32::MAX,
                        w <= u32::MAX,
                ;
                let vv = (hi * w as u64 % m as u64) as u32;
                assert(u == c0[start + j]);
                assert(hi == c0[start + j + half]);
                assert((start + j) as int % (len as int) == j);
                assert(c0[start + j] + m <= u32::MAX);
                assert(s0[start + j] == u);
                assert(s0[start + j + half] == hi);
                assert(rs[j * stride] == w);
                assert(target[start + j] == butterfly(s0, rs, mm, len as int, start + j));
                assert(target[start + j + half] == butterfly(s0, rs, mm, len as int, start + j + half));
                proof {
                    lemma_mul_is_commutative(hi as int, w as int);
                }
                assert(target[start + j] == (u + vv) % mm);
                assert(target[start + j + half] == (u + mm - vv) % mm);
                coeffs.set(start + j, (u + vv) % m);
                coeffs.set(start + j + half, (m + u - vv) % m);
                proof {
                    let e = (j * stride) as nat;
                    lemma_mul_mod_noop(pow(wi, e), pow(wi, stride as nat), mm);
                    lemma_pow_adds(wi, e, stride as nat);
                    lemma_mul_is_distributive_add_other_way(stride as int, j as int, 1);
                    assert(w * w_len <= u64::MAX) by (nonlinear_arith)
                        requires
                            w <= u32::MAX,
                            w_len <= u32::MAX,
                    ;
                }
                w = (w as u64 * w_len as u64 % m as u64) as u32;
                j += 1;
            }
            start += len;
            proof {
                q = q + 1;
                lemma_mul_is_distributive_add_other_way(len as int, q - 1, 1);
            }
        }
        assert(ints(coeffs@) =~= target);
        proof {
            lemma_stage_step(v, rs, mm, len as int);
        }
        if len == n {
            break;
        }
        proof {
            lemma_pow2_between(len as nat, n as nat);
            assert forall|i: int|
                0 <= i < n && i % ((2 * len) as int) < len implies coeffs[i] + m <= u32::MAX by {
                assert(coeffs[i] == target[i]);
            }
        }
        len = len * 2;
        assert((len / 2) as int == len as int / 2);
    }
    proof {
        lemma_partial_full(v, rs, mm);
        assert(n * n <= u64::MAX) by (nonlinear_arith)
            requires
                n <= u32::MAX,
        ;
    }
    let n_inv64 = mod_pow(n as u64, (modulus - 2) as u64, modulus as u64);
    assert(n_inv64 < m) by {
        if modulus > 2 {
            lemma_mod_bound(pow(n as int, (modulus - 2) as nat), mm);
        }
    }
    let n_inv = n_inv64 as u32;
    let ghost y = fft(v, rs, mm);
    let mut k: usize = 0;
    while k < n
        invariant
            k <= n,
            n == coeffs.len(),
            mm == m,
            m >= 2,
            n_inv == ifft_scale(n as nat, mm),
            ints(coeffs@).len() == n,
            forall|i: int| k <= i < n ==> coeffs[i] as int == y[i],
            forall|i: int| 0 <= i < k ==> #[trigger] coeffs[i] == (y[i] * n_inv) % mm,
        decreases n - k,
    {
        let x = coeffs[k];
        assert((x as u64) * (n_inv as u64) <= u64::MAX) by (nonlinear_arith)
            requires
                x <= u32::MAX,
                n_inv <= u32::MAX,
        ;
        coeffs.set(k, (x as u64 * n_inv as u64 % m as u64) as u32);
        k += 1;
    }
    coeffs
}

/// A power of two is `2^log2(n)`.
proof fn lemma_power_of_two_log(n: nat)
    requires
        is_pow2(n),
    ensures
        pow2(crate::ntt_babybear::log2_spec(n)) == n,
    decreases n,
{
    vstd::arithmetic::power2::lemma2_to64();
    if n > 1 {
        lemma_pow2_even(n);
        lemma_power_of_two_log(n / 2);
        vstd::arithmetic::power2::lemma_pow2_unfold(crate::ntt_babybear::log2_spec(n));
    }
}

/// The inverse transform of `cpu_ifft` undoes the forward transform with
/// the twiddles that `precompute_twiddles` gives: for a prime modulus `m`
/// of which 3 is a quadratic non-residue (`3^((m-1)/2) = m - 1`, as for
/// 257), a power of two `n >= 2` dividing `m - 1`, and values reduced mod
/// `m`, scaling the inverse-root transform of the forward transform gives
/// the values back.
pub proof fn lemma_cpu_ifft_inverts_fft(v: Seq<int>, m: int)
    requires
        is_pow2(v.len()),
        v.len() >= 2,
        is_prime(m),
        (m - 1) % (v.len() as int) == 0,
        pow(3, ((m - 1) / 2) as nat) % m == m - 1,
        forall|i: int| 0 <= i < v.len() ==> 0 <= #[trigger] v[i] < m,
    ensures
        ({
            let n = v.len();
            let root = mod_pow_result(3, ((m - 1) / (n as int)) as nat, m);
            let forward = fft(v, power_table(root, n, m), m);
            Seq::new(
                n,
                |i: int| (fft(forward, power_table(ifft_root(n, m), n, m), m)[i] * ifft_scale(n, m)) % m,
            ) == v
        }),
{
    let n = v.len();
    let e = ((m - 1) / (n as int)) as nat;
    lemma_pow2_even(n);
    lemma_fundamental_div_mod(m - 1, n as int);
    // m - 1 is at least n >= 2, and m is not 3 (3^1 = 0 mod 3)
    lemma_divisor_le(n as int, m - 1);
    assert(m > 3) by {
        if m == 3 {
            lemma_pow1(3);
        }
    }
    assert(e >= 1) by {
        if e == 0 {
            lemma_mul_basics(n as int);
        }
    }
    let root = pow(3, e) % m;
    let r = power_table(root, n, m);
    // root^(n/2) = 3^(e n / 2) = 3^((m-1)/2) = -1
    assert(e * (n / 2) == (m - 1) / 2) by {
        lemma_mul_is_associative(e as int, (n / 2) as int, 2);
        lemma_mul_is_commutative(e as int, n as int);
    }
    lemma_pow_mod_noop(pow(3, e), (n / 2) as nat, m);
    lemma_pow_multiplies(3, e, (n / 2) as nat);
    assert(crate::ntt::dft::is_root_table(r, root, m));
    // the twiddles of the inverse transform are the inverse twiddles
    let u = pow(root, (n - 1) as nat) % m;
    assert(ifft_root(n, m) == u);
    crate::ntt::dft::lemma_inverse_root_table(r, root, m);
    assert(power_table(u, n, m) =~= crate::ntt::transform::inverse_roots(r)) by {
        assert forall|i: int| 0 <= i < n implies power_table(u, n, m)[i]
            == crate::ntt::transform::inverse_roots(r)[i] by {
            lemma_pow_mod_noop(pow(root, (n - 1) as nat), i as nat, m);
            lemma_pow_multiplies(root, (n - 1) as nat, i as nat);
        }
    }
    // n times n^(m-2) is n^(m-1) = 1, as m does not divide n < m
    let c = pow(n as int, (m - 2) as nat) % m;
    assert(ifft_scale(n, m) == c);
    assert((n * c) % m == 1) by {
        lemma_divisor_le(n as int, m - 1);
        lemma_small_mod(n, m as nat);
        lemma_fermat_prime(m, n as int);
        lemma_mul_mod_noop_right(n as int, pow(n as int, (m - 2) as nat), m);
        lemma_pow1(n as int);
        lemma_pow_adds(n as int, 1, (m - 2) as nat);
    }
    assert(crate::ntt::dft::is_reduced(v, m));
    crate::ntt::dft::lemma_fft_inverse(v, r, root, m, c);
}

} // verus!
