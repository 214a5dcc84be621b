//! Host-side helpers of the multi-limb GPU FFT: the in-place bit-reversal
//! permutation and the inverse of an odd 64-bit word modulo `2^64`.

use vstd::prelude::*;
use vstd::arithmetic::div_mod::*;
use vstd::arithmetic::mul::*;
use vstd::arithmetic::power2::pow2;
use crate::ntt::bitrev::{bit_reverse_prefix, rev_bits, trailing_zeros, trailing_zeros_spec};
use crate::metal::dispatch::{log_size, transform_log_size};
use vstd::arithmetic::power::*;
use crate::bignum::{BigNat, big_div, big_eq, big_from_bytes_le, big_low_u64, big_modpow, big_mul, big_rem, big_shl, big_sub, big_to_bytes_le, le_bytes_value};
use crate::ff::F;
use crate::math::digits::{le_chunk, lemma_be_bytes_value, lemma_le_byte, lemma_le_bytes_chunk, lemma_le_chunk_digits, lemma_le_chunk_digits_at, lemma_le_chunk_split};

verus! {

/// Bit-reversal permutation in place. The length must be even (or zero);
/// with `2^t` the largest power of two dividing it, the first `2^t`
/// elements are permuted by reversing the `t` low bits of their index and
/// the others stay (so a power-of-two length is permuted entirely).
pub fn bitreverse_permute<T>(values: &mut [T])
    requires
        old(values).len() % 2 == 0,
    ensures
        final(values).len() == old(values).len(),
        old(values).len() > 0 ==> forall|k: int|
            0 <= k < pow2(trailing_zeros_spec(old(values).len() as nat)) ==> #[trigger] final(values)@[k]
                == old(values)@[rev_bits(k, trailing_zeros_spec(old(values).len() as nat))],
        old(values).len() > 0 ==> forall|k: int|
            pow2(trailing_zeros_spec(old(values).len() as nat)) <= k < old(values).len()
                ==> #[trigger] final(values)@[k] == old(values)@[k],
{
    let n = values.len();
    if n == 0 {
        return ;
    }
    let log_n = trailing_zeros(n);
    bit_reverse_prefix(values, log_n);
}

/// `2^(2^i)`: the modulus up to which the `i`-th Newton step is exact.
pub open spec fn newton_modulus(i: nat) -> int
    decreases i,
{
    if i == 0 {
        2
    } else {
        newton_modulus((i - 1) as nat) * newton_modulus((i - 1) as nat)
    }
}

/// The moduli of the six steps: 2, 4, 16, 256, 2^16, 2^32, 2^64.
proof fn lemma_newton_moduli()
    ensures
        newton_modulus(0) == 2,
        newton_modulus(1) == 4,
        newton_modulus(2) == 16,
        newton_modulus(3) == 256,
        newton_modulus(4) == 0x1_0000,
        newton_modulus(5) == 0x1_0000_0000,
        newton_modulus(6) == 0x1_0000_0000_0000_0000,
        forall|i: nat| i < 6 ==> 0x1_0000_0000_0000_0000int % (#[trigger] newton_modulus(i) * newton_modulus(i)) == 0,
        forall|i: nat| i < 6 ==> #[trigger] newton_modulus(i + 1) == newton_modulus(i) * newton_modulus(i),
{
    assert(newton_modulus(0) == 2);
    assert(newton_modulus(1) == 4);
    assert(newton_modulus(2) == 16);
    assert(newton_modulus(3) == 256);
    assert(newton_modulus(4) == 0x1_0000);
    assert(newton_modulus(5) == 0x1_0000_0000);
    assert(newton_modulus(6) == 0x1_0000_0000_0000_0000);
    assert forall|i: nat| i < 6 implies 0x1_0000_0000_0000_0000int % (#[trigger] newton_modulus(i)
        * newton_modulus(i)) == 0 by {
        let m = 0x1_0000_0000_0000_0000int;
        let d = newton_modulus(i);
        if i == 0 {
            assert(d * d == 4);
            assert(m % 4 == 0);
        } else if i == 1 {
            assert(d * d == 16);
            assert(m % 16 == 0);
        } else if i == 2 {
            assert(d * d == 256);
            assert(m % 256 == 0);
        } else if i == 3 {
            assert(d * d == 0x1_0000);
            assert(m % 0x1_0000 == 0);
        } else if i == 4 {
            assert(d * d == 0x1_0000_0000);
            assert(m % 0x1_0000_0000 == 0);
        } else {
            assert(d * d == m);
            assert(m % m == 0);
        }
    }
}

/// One Newton step `x -> x (2 - a x)` (mod `2^64`, computed in 128-bit
/// wrapping arithmetic) doubles the number of low bits in which `a x` is 1.
proof fn lemma_newton_step(a: int, inv: int, d: int)
    requires
        0 <= a < 0x1_0000_0000_0000_0000,
        0 <= inv < 0x1_0000_0000_0000_0000,
        d >= 2,
        0x1_0000_0000_0000_0000int % (d * d) == 0,
        (a * inv) % d == 1,
    ensures
        ({
            let m = 0x1_0000_0000_0000_0000int;
            let r = 0x1_0000_0000_0000_0000_0000_0000_0000_0000int;
            let s = ((a * inv) % r) % m;
            let u = if s <= 2 {
                2 - s
            } else {
                2 - s + r
            };
            let next = ((inv * u) % r) % m;
            (a * next) % (d * d) == 1
        }),
{
    let m = 0x1_0000_0000_0000_0000int;
    let r = 0x1_0000_0000_0000_0000_0000_0000_0000_0000int;
    let e = a * inv;
    let s = (e % r) % m;
    let u = if s <= 2 {
        2 - s
    } else {
        2 - s + r
    };
    let next = ((inv * u) % r) % m;
    assert(r == m * m);
    lemma_mod_mod(e, m, m);
    assert(s == e % m);
    lemma_mod_mod(inv * u, m, m);
    assert(next == (inv * u) % m);
    // u and 2 - e agree mod m
    lemma_fundamental_div_mod(e, m);
    assert((2 - s) % m == (2 - e) % m) by {
        lemma_mod_multiples_vanish(e / m, 2 - e, m);
        assert(2 - s == (2 - e) + m * (e / m));
    }
    assert(u % m == (2 - s) % m) by {
        if s > 2 {
            lemma_mod_multiples_vanish(m, 2 - s, m);
        }
    }
    lemma_mul_mod_noop_right(inv, u, m);
    lemma_mul_mod_noop_right(inv, 2 - e, m);
    assert(next == (inv * (2 - e)) % m);
    lemma_mul_mod_noop_right(a, inv * (2 - e), m);
    lemma_mul_mod_noop_right(a, inv * u, m);
    // a * inv * (2 - e) = 1 - (e - 1)^2, and e - 1 = d q
    lemma_fundamental_div_mod(e, d);
    let q = e / d;
    assert(e - 1 == d * q);
    assert(a * (inv * (2 - e)) == 1 - (d * d) * (q * q)) by (nonlinear_arith)
        requires
            e == a * inv,
            e - 1 == d * q,
    ;
    let dd = d * d;
    assert(dd >= 4) by (nonlinear_arith)
        requires
            d >= 2,
            dd == d * d,
    ;
    lemma_fundamental_div_mod(m, dd);
    let t = m / dd;
    lemma_mod_mod(a * next, dd, t);
    lemma_mul_is_commutative(dd, t);
    lemma_mod_mod(1 - dd * (q * q), dd, t);
    assert((a * next) % m == (1 - dd * (q * q)) % m);
    lemma_mod_multiples_vanish(-(q * q), 1, dd);
    assert(1 - dd * (q * q) == 1 + dd * (-(q * q))) by (nonlinear_arith);
    lemma_small_mod(1, dd as nat);
}

/// One Newton step for the inverse modulo `2^64`: `x -> x (2 - a x)`,
/// with `a x` and the product taken mod `2^64`.
pub open spec fn newton_next(a: int, x: int) -> int {
    (x * (2 - (a * x) % 0x1_0000_0000_0000_0000int)) % 0x1_0000_0000_0000_0000int
}

/// `k` Newton steps from 1.
pub open spec fn newton_iterate(a: int, k: nat) -> int
    decreases k,
{
    if k == 0 {
        1
    } else {
        newton_next(a, newton_iterate(a, (k - 1) as nat))
    }
}

/// The step in 128-bit wrapping arithmetic, kept to its low 64 bits, is
/// the Newton step.
proof fn lemma_newton_wrapping(a: int, inv: int)
    requires
        0 <= a < 0x1_0000_0000_0000_0000,
        0 <= inv < 0x1_0000_0000_0000_0000,
    ensures
        ({
            let m = 0x1_0000_0000_0000_0000int;
            let r = 0x1_0000_0000_0000_0000_0000_0000_0000_0000int;
            let s = ((a * inv) % r) % m;
            let u = if s <= 2 {
                2 - s
            } else {
                2 - s + r
            };
            ((inv * u) % r) % m == newton_next(a, inv)
        }),
{
    let m = 0x1_0000_0000_0000_0000int;
    let r = 0x1_0000_0000_0000_0000_0000_0000_0000_0000int;
    let e = a * inv;
    let s = (e % r) % m;
    let u = if s <= 2 {
        2 - s
    } else {
        2 - s + r
    };
    assert(r == m * m);
    lemma_mod_mod(e, m, m);
    lemma_mod_mod(inv * u, m, m);
    assert(u % m == (2 - s) % m) by {
        if s > 2 {
            lemma_mod_multiples_vanish(m, 2 - s, m);
        }
    }
    lemma_mul_mod_noop_right(inv, u, m);
    lemma_mul_mod_noop_right(inv, 2 - s, m);
}

/// Six Newton steps from 1 for the inverse of `a` modulo `2^64` (the
/// inverse itself when `a` is odd), in 128-bit wrapping arithmetic, each
/// kept to its low 64 bits.
pub fn modinv64(a: u64) -> (r: u64)
    ensures
        r == newton_iterate(a as int, 6),
        a % 2 == 1 ==> (a * r) % 0x1_0000_0000_0000_0000int == 1,
{
    let mut inv = 1u128;
    let base = a as u128;
    assert(1u128 << 64u128 == 0x1_0000_0000_0000_0000u128) by (bit_vector);
    let mask: u128 = (1u128 << 64) - 1;
    let mut i: usize = 0;
    proof {
        lemma_newton_moduli();
    }
    while i < 6
        invariant
            i <= 6,
            base == a,
            mask == 0xffff_ffff_ffff_ffffu128,
            inv < 0x1_0000_0000_0000_0000,
            inv == newton_iterate(a as int, i as nat),
            a % 2 == 1 ==> (a * inv) % newton_modulus(i as nat) == 1,
        decreases 6 - i,
    {
        let ghost old_inv = inv as int;
        let x = base.wrapping_mul(inv) & mask;
        let y = 2u128.wrapping_sub(x);
        inv = inv.wrapping_mul(y) & mask;
        proof {
            let bx = base.wrapping_mul(old_inv as u128);
            assert(bx & 0xffff_ffff_ffff_ffffu128 == bx % 0x1_0000_0000_0000_0000u128) by (bit_vector);
            let iy = (old_inv as u128).wrapping_mul(y);
            assert(iy & 0xffff_ffff_ffff_ffffu128 == iy % 0x1_0000_0000_0000_0000u128) by (bit_vector);
            lemma_newton_moduli();
            lemma_newton_wrapping(a as int, old_inv);
            if a % 2 == 1 {
                let d = newton_modulus(i as nat);
                lemma_newton_step(a as int, old_inv, d);
                assert(newton_modulus((i + 1) as nat) == d * d);
            }
        }
        i += 1;
    }
    proof {
        lemma_newton_moduli();
    }
    inv as u64
}

/// The number of 64-bit limbs of a field element on the GPU.
pub const LIMBS: usize = 4;

/// A field element as the GPU kernels read it: four 64-bit limbs, least
/// significant first.
#[derive(Clone, Copy)]
pub struct FieldElem {
    pub x: u64,
    pub y: u64,
    pub z: u64,
    pub w: u64,
}

/// `2^64`.
pub open spec fn limb_base() -> int {
    0x1_0000_0000_0000_0000
}

/// Limb `i` of `v`: `(v / 2^(64 i)) mod 2^64`.
pub open spec fn limb(v: nat, i: nat) -> int {
    (v as int / pow(limb_base(), i)) % limb_base()
}

/// `l[0] + 2^64 l[1] + 2^128 l[2] + 2^192 l[3]`.
pub open spec fn limbs_value(l: Seq<u64>) -> int {
    l[0] + limb_base() * (l[1] + limb_base() * (l[2] + limb_base() * l[3]))
}

/// Bytes as integers.
pub open spec fn byte_ints(b: Seq<u8>) -> Seq<int> {
    b.map_values(|x: u8| x as int)
}

/// `256^8 = 2^64`, and `256^(8 i) = 2^(64 i)`.
proof fn lemma_limb_power(i: nat)
    ensures
        pow(256, 8) == limb_base(),
        pow(256, 8 * i) == pow(limb_base(), i),
{
    reveal_with_fuel(pow, 9);
    lemma_pow_multiplies(256, 8, i);
}

/// The eight bytes at `off`, read little-endian.
fn le_u64_at(bytes: &Vec<u8>, off: usize) -> (r: u64)
    requires
        off + 8 <= bytes.len(),
    ensures
        r == le_chunk(byte_ints(bytes@), off as int, 8),
{
    let ghost b = byte_ints(bytes@);
    let mut acc: u64 = 0;
    let mut t: usize = 8;
    proof {
        lemma_limb_power(1);
        lemma_pow0(256);
    }
    while t > 0
        invariant
            off + 8 <= bytes.len(),
            b == byte_ints(bytes@),
            t <= 8,
            acc == le_chunk(b, off + t, (8 - t) as nat),
            acc < pow(256, (8 - t) as nat),
            pow(256, 8) == limb_base(),
        decreases t,
    {
        proof {
            lemma_pow_increases(256, (8 - t) as nat, 7);
            reveal_with_fuel(pow, 8);
            lemma_pow_adds(256, 1, (8 - t) as nat);
            lemma_pow1(256);
        }
        let byte = bytes[off + t - 1];
        assert(acc * 256 + 255 < limb_base()) by (nonlinear_arith)
            requires
                acc < pow(256, (8 - t) as nat),
                pow(256, (8 - t) as nat) <= pow(256, 7),
                pow(256, 7) == 0x100_0000_0000_0000,
        ;
        acc = acc * 256 + byte as u64;
        assert(b[off + t - 1] == byte);
        assert(acc < pow(256, (9 - t) as nat)) by (nonlinear_arith)
            requires
                acc == (acc - byte) + byte,
                acc - byte < 256 * pow(256, (8 - t) as nat) - 255,
                byte < 256,
                pow(256, (9 - t) as nat) == 256 * pow(256, (8 - t) as nat),
        ;
        t -= 1;
    }
    acc
}

/// The low 256 bits of the number with little-endian bytes `bytes`, as four
/// limbs: the bytes are cut or zero-padded to 32, then read 8 at a time.
fn limbs_from_le_bytes(bytes: Vec<u8>) -> (r: [u64; 4])
    ensures
        forall|i: int| 0 <= i < 4 ==> #[trigger] r@[i] == limb(le_bytes_value(bytes@), i as nat),
{
    let ghost b0 = bytes@;
    let ghost v = le_bytes_value(b0);
    let mut bytes = bytes;
    bytes.resize(32, 0);
    let ghost b = byte_ints(bytes@);
    proof {
        assert forall|k: int| 0 <= k < 32 implies #[trigger] b[k] == (v as int / pow(256, k as nat)) % 256 by {
            lemma_le_byte(b0, k as nat);
            if k >= b0.len() {
                assert(bytes@[k] == 0u8);
            } else {
                assert(bytes@[k] == b0[k]);
            }
        }
    }
    let mut out: [u64; 4] = [0u64; 4];
    let mut i: usize = 0;
    while i < 4
        invariant
            bytes.len() == 32,
            b == byte_ints(bytes@),
            forall|k: int| 0 <= k < 32 ==> #[trigger] b[k] == (v as int / pow(256, k as nat)) % 256,
            i <= 4,
            forall|j: int| 0 <= j < i ==> #[trigger] out@[j] == limb(v, j as nat),
        decreases 4 - i,
    {
        let l = le_u64_at(&bytes, i * 8);
        proof {
            lemma_le_chunk_digits(v, b, (i * 8) as nat, 8);
            lemma_limb_power(i as nat);
        }
        out[i] = l;
        i += 1;
    }
    out
}

/// The low four 64-bit limbs of the value of `x`.
pub fn f_to_limbs(x: &F) -> (r: [u64; 4])
    ensures
        forall|i: int| 0 <= i < 4 ==> #[trigger] r@[i] == limb(x.value@, i as nat),
{
    let bytes = big_to_bytes_le(&x.value);
    proof {
        lemma_be_bytes_value(x.value@);
    }
    limbs_from_le_bytes(bytes)
}

/// The low four 64-bit limbs of `x`.
pub fn biguint_to_limbs(x: &BigNat) -> (r: [u64; 4])
    ensures
        forall|i: int| 0 <= i < 4 ==> #[trigger] r@[i] == limb(x@, i as nat),
{
    let bytes = big_to_bytes_le(x);
    proof {
        lemma_be_bytes_value(x@);
    }
    limbs_from_le_bytes(bytes)
}

/// Appends the eight little-endian bytes of `x`.
fn push_le_bytes(out: &mut Vec<u8>, x: u64)
    ensures
        final(out).len() == old(out).len() + 8,
        final(out)@.subrange(0, old(out).len() as int) == old(out)@,
        forall|t: int|
            0 <= t < 8 ==> #[trigger] final(out)@[old(out).len() + t] == (x as int / pow(256, t as nat)) % 256,
{
    let ghost start = out@;
    let mut v = x;
    let mut t: usize = 0;
    proof {
        lemma_pow0(256);
    }
    while t < 8
        invariant
            t <= 8,
            out.len() == start.len() + t,
            out@.subrange(0, start.len() as int) == start,
            v as int == x as int / pow(256, t as nat),
            forall|k: int| 0 <= k < t ==> #[trigger] out@[start.len() + k] == (x as int / pow(256, k as nat)) % 256,
        decreases 8 - t,
    {
        let ghost before = out@;
        out.push((v % 256) as u8);
        proof {
            lemma_pow_positive(256, t as nat);
            lemma_pow_adds(256, t as nat, 1);
            lemma_pow1(256);
            lemma_div_denominator(x as int, pow(256, t as nat), 256);
            assert(out@.subrange(0, start.len() as int) =~= before.subrange(0, start.len() as int));
        }
        v = v / 256;
        t += 1;
    }
}

/// The element with value `l[0] + 2^64 l[1] + 2^128 l[2] + 2^192 l[3]`,
/// reduced modulo `modulus`.
pub fn limbs_to_f(limbs: &[u64; 4], modulus: BigNat) -> (r: F)
    requires
        modulus@ > 0,
    ensures
        r.value@ == limbs_value(limbs@) % (modulus@ as int),
        r.modulus@ == modulus@,
{
    let mut bytes: Vec<u8> = Vec::new();
    let mut j: usize = 0;
    while j < 4
        invariant
            j <= 4,
            bytes.len() == 8 * j,
            forall|i: int, t: int|
                0 <= i < j && 0 <= t < 8 ==> #[trigger] bytes@[8 * i + t] == (limbs@[i] as int / pow(256, t as nat)) % 256,
        decreases 4 - j,
    {
        let ghost before = bytes@;
        push_le_bytes(&mut bytes, limbs[j]);
        proof {
            assert forall|i: int, t: int| 0 <= i < j + 1 && 0 <= t < 8 implies #[trigger] bytes@[8 * i + t]
                == (limbs@[i] as int / pow(256, t as nat)) % 256 by {
                if i < j {
                    assert(bytes@[8 * i + t] == bytes@.subrange(0, before.len() as int)[8 * i + t]);
                } else {
                    assert(8 * i + t == before.len() + t);
                }
            }
        }
        j += 1;
    }
    let ghost b = byte_ints(bytes@);
    proof {
        lemma_le_bytes_chunk(bytes@, 0, 32);
        assert(bytes@.subrange(0, 32) =~= bytes@);
        lemma_limb_power(1);
        assert forall|i: int| 0 <= i < 4 implies le_chunk(b, 8 * i, 8) == #[trigger] limbs@[i] by {
            assert forall|k: int| 8 * i + 0 <= k < 8 * i + 0 + 8 implies #[trigger] b[k] == (limbs@[i] as int / pow(
                256,
                (k - 8 * i) as nat,
            )) % 256 by {
                assert(bytes@[8 * i + (k - 8 * i)] == (limbs@[i] as int / pow(256, (k - 8 * i) as nat)) % 256);
            }
            lemma_le_chunk_digits_at(limbs@[i] as nat, b, 8 * i, 0, 8);
            lemma_pow0(256);
            lemma_small_mod(limbs@[i] as nat, limb_base() as nat);
        }
        lemma_le_chunk_split(b, 0, 8, 24);
        lemma_le_chunk_split(b, 8, 8, 16);
        lemma_le_chunk_split(b, 16, 8, 8);
        assert(le_chunk(b, 0, 8) == limbs@[0]);
        assert(le_chunk(b, 8, 8) == limbs@[1]);
        assert(le_chunk(b, 16, 8) == limbs@[2]);
        assert(le_chunk(b, 24, 8) == limbs@[3]);
    }
    let value = big_from_bytes_le(&bytes);
    F { value: big_rem(&value, &modulus), modulus }
}

/// `R = 2^256`, the Montgomery radix of four limbs.
pub open spec fn mont_radix() -> nat {
    pow2(256)
}

/// `x R mod m`.
pub open spec fn mont_value(x: int, m: int) -> int {
    (x * mont_radix()) % m
}

/// The Montgomery constants of an odd `modulus`: `nprime` with
/// `modulus * nprime = -1` mod `2^64` (the negated inverse of its low
/// word), and `R^2 mod modulus`.
pub fn compute_montgomery_params(modulus: &BigNat) -> (r: (u64, BigNat))
    requires
        modulus@ % 2 == 1,
    ensures
        (modulus@ * r.0) % limb_base() == limb_base() - 1,
        r.1@ == (mont_radix() * mont_radix()) % modulus@,
{
    let m0 = big_low_u64(modulus);
    proof {
        lemma_mod_mod(modulus@ as int, 2, 0x8000_0000_0000_0000);
    }
    let inv = modinv64(m0);
    let nprime = (!inv).wrapping_add(1);
    proof {
        assert(nprime as int == (limb_base() - inv) % limb_base()) by {
            assert((!inv).wrapping_add(1) == (0u64.wrapping_sub(inv))) by (bit_vector);
        }
        let mb = limb_base();
        let mm = modulus@ as int;
        lemma_mul_mod_noop_left(mm, nprime as int, mb);
        lemma_mul_mod_noop_right(m0 as int, mb - inv, mb);
        assert(m0 * (mb - inv) == m0 * mb - m0 * inv) by (nonlinear_arith);
        lemma_mod_multiples_vanish(m0 as int, -(m0 * inv), mb);
        lemma_mul_is_commutative(m0 as int, mb);
        assert((-(m0 * inv)) % mb == mb - 1) by {
            lemma_fundamental_div_mod(m0 * inv, mb);
            let q = (m0 * inv) / mb;
            assert(-(m0 * inv) == mb * (-q - 1) + (mb - 1));
            lemma_mod_multiples_vanish(-q - 1, mb - 1, mb);
            lemma_small_mod((mb - 1) as nat, mb as nat);
        }
    }
    let one = BigNat::from_u64(1);
    let r = big_shl(&one, 256);
    let rr = big_mul(&r, &r);
    let r2 = big_rem(&rr, modulus);
    (nprime, r2)
}

/// `x R mod modulus`, the Montgomery form of `x` (`r2` is not used).
pub fn to_montgomery(x: &BigNat, modulus: &BigNat, r2: &BigNat) -> (r: BigNat)
    requires
        modulus@ > 0,
    ensures
        r@ == mont_value(x@ as int, modulus@ as int),
{
    let one = BigNat::from_u64(1);
    let r = big_shl(&one, 256);
    let p = big_mul(x, &r);
    big_rem(&p, modulus)
}

/// `x R^(m-2) mod m` with `m = modulus`: `x` out of Montgomery form when `m`
/// is prime (`nprime` is not used).
pub fn from_montgomery(x: &BigNat, modulus: &BigNat, nprime: u64) -> (r: BigNat)
    requires
        modulus@ >= 2,
    ensures
        r@ == (x@ * (pow(mont_radix() as int, (modulus@ - 2) as nat) % (modulus@ as int))) % (modulus@ as int),
{
    let one = BigNat::from_u64(1);
    let r = big_shl(&one, 256);
    let two = BigNat::from_u64(2);
    let e = big_sub(modulus, &two);
    let r_inv = big_modpow(&r, &e, modulus);
    let p = big_mul(x, &r_inv);
    big_rem(&p, modulus)
}

/// The candidate generators that `find_root_of_unity` tries, in order.
pub open spec fn root_candidates() -> Seq<int> {
    seq![3, 5, 7, 11, 13]
}

/// `c^n = 1` and `c^(n/2) != 1` mod `p`.
pub open spec fn is_good_root(c: int, n: nat, p: int) -> bool {
    pow(c, n) % p == 1 && pow(c, n / 2) % p != 1
}

/// The first `g^((p-1)/n) mod p`, for `g` in `gs` in order, that passes
/// `is_good_root`.
pub open spec fn first_good_root(gs: Seq<int>, n: nat, p: int) -> Option<int>
    decreases gs.len(),
{
    if gs.len() == 0 {
        None
    } else {
        let c = pow(gs[0], ((p - 1) / (n as int)) as nat) % p;
        if is_good_root(c, n, p) {
            Some(c)
        } else {
            first_good_root(gs.drop_first(), n, p)
        }
    }
}

/// The root found has order exactly `n` in the sense the search checks:
/// its `n`-th power is 1 and its `(n/2)`-th power is not; it is
/// `g^((p-1)/n) mod p` for one of the candidates `g`, and no earlier
/// candidate gives such a root.
pub proof fn lemma_first_good_root_order(gs: Seq<int>, n: nat, p: int)
    requires
        first_good_root(gs, n, p) is Some,
    ensures
        ({
            let r = first_good_root(gs, n, p)->0;
            &&& pow(r, n) % p == 1
            &&& pow(r, n / 2) % p != 1
            &&& exists|i: int|
                0 <= i < gs.len() && r == pow(gs[i], ((p - 1) / (n as int)) as nat) % p && forall|j: int|
                    0 <= j < i ==> !(pow(#[trigger] pow(gs[j], ((p - 1) / (n as int)) as nat) % p, n) % p == 1
                        && pow(pow(gs[j], ((p - 1) / (n as int)) as nat) % p, n / 2) % p != 1)
        }),
    decreases gs.len(),
{
    let c = pow(gs[0], ((p - 1) / (n as int)) as nat) % p;
    if !(pow(c, n) % p == 1 && pow(c, n / 2) % p != 1) {
        let t = gs.drop_first();
        lemma_first_good_root_order(t, n, p);
        let r = first_good_root(gs, n, p)->0;
        let i = choose|i: int|
            0 <= i < t.len() && r == pow(t[i], ((p - 1) / (n as int)) as nat) % p && forall|j: int|
                0 <= j < i ==> !(pow(#[trigger] pow(t[j], ((p - 1) / (n as int)) as nat) % p, n) % p == 1
                    && pow(pow(t[j], ((p - 1) / (n as int)) as nat) % p, n / 2) % p != 1);
        assert(gs[i + 1] == t[i]);
        assert forall|j: int| 0 <= j < i + 1 implies !(pow(#[trigger] pow(gs[j], ((p - 1) / (n as int)) as nat) % p, n)
            % p == 1 && pow(pow(gs[j], ((p - 1) / (n as int)) as nat) % p, n / 2) % p != 1) by {
            if j > 0 {
                assert(gs[j] == t[j - 1]);
            }
        }
    }
}

/// The inverse of a root mod a prime `modulus`: `root^(modulus - 2) mod
/// modulus`, whose twiddles drive the inverse transform.
pub fn inverse_root(root: &BigNat, modulus: &BigNat) -> (r: BigNat)
    requires
        modulus@ >= 2,
    ensures
        r@ == pow(root@ as int, (modulus@ - 2) as nat) % (modulus@ as int),
{
    let two = BigNat::from_u64(2);
    let exp = big_sub(modulus, &two);
    big_modpow(root, &exp, modulus)
}

/// A root of unity of order `n` mod `p`: the first `g^((p-1)/n) mod p`, `g`
/// taken from 3, 5, 7, 11, 13, whose `n`-th power is 1 and whose `n/2`-th
/// power is not. One of them must be (it panics otherwise).
pub fn find_root_of_unity(n: usize, p: &BigNat) -> (r: BigNat)
    requires
        n >= 1,
        p@ >= 1,
        first_good_root(root_candidates(), n as nat, p@ as int) is Some,
    ensures
        r@ == first_good_root(root_candidates(), n as nat, p@ as int)->0,
        pow(r@ as int, n as nat) % (p@ as int) == 1,
        pow(r@ as int, (n / 2) as nat) % (p@ as int) != 1,
{
    proof {
        lemma_first_good_root_order(root_candidates(), n as nat, p@ as int);
    }
    let ghost pi = p@ as int;
    let one = BigNat::from_u64(1);
    let phi = big_sub(p, &one);
    let size = BigNat::from_u64(n as u64);
    let exp = big_div(&phi, &size);
    let half = BigNat::from_u64((n / 2) as u64);
    let gs: [u64; 5] = [3, 5, 7, 11, 13];
    let mut idx: usize = 0;
    assert(root_candidates().subrange(0, 5) =~= root_candidates());
    loop
        invariant
            idx <= 5,
            one@ == 1,
            size@ == n,
            half@ == n / 2,
            exp@ == (pi - 1) / (n as int),
            pi == p@,
            pi >= 1,
            gs@ == seq![3u64, 5, 7, 11, 13],
            first_good_root(root_candidates(), n as nat, pi) == first_good_root(
                root_candidates().subrange(idx as int, 5),
                n as nat,
                pi,
            ),
            first_good_root(root_candidates(), n as nat, pi) is Some,
        decreases 5 - idx,
    {
        if idx >= 5 {
            assert(root_candidates().subrange(idx as int, 5) =~= Seq::<int>::empty());
            assert(false);
        }
        let g = BigNat::from_u64(gs[idx]);
        let candidate = big_modpow(&g, &exp, p);
        let full = big_modpow(&candidate, &size, p);
        let partial = big_modpow(&candidate, &half, p);
        let ghost rest = root_candidates().subrange(idx as int, 5);
        assert(rest[0] == gs[idx as int]);
        assert(rest.drop_first() =~= root_candidates().subrange(idx + 1, 5));
        if big_eq(&full, &one) && !big_eq(&partial, &one) {
            return candidate;
        }
        idx += 1;
    }
}

/// Four limbs as a sequence.
pub open spec fn limbs_seq(v: nat) -> Seq<u64> {
    Seq::new(4, |i: int| limb(v, i as nat) as u64)
}

/// Twiddle `k` of a table built from `root`: the Montgomery form of
/// `root^k mod m`, as four limbs.
pub open spec fn twiddle_limbs(root: int, k: nat, m: int) -> Seq<u64> {
    limbs_seq(mont_value(pow(root, k) % m, m) as nat)
}

/// The root of butterfly stage `s` of a size-`n` transform:
/// `root^(n / 2^(s+1)) mod m`.
pub open spec fn stage_root(root: int, n: nat, s: nat, m: int) -> int {
    pow(root, (n as int / pow2(s + 1) as int) as nat) % m
}

/// The limbs of `x`, as a value of the table.
fn limbs_of(x: &BigNat) -> (r: [u64; 4])
    ensures
        r@ == limbs_seq(x@),
{
    let r = biguint_to_limbs(x);
    proof {
        assert forall|i: int| 0 <= i < 4 implies #[trigger] r@[i] == limbs_seq(x@)[i] by {
            lemma_mod_bound(x@ as int / pow(limb_base(), i as nat), limb_base());
        }
    }
    assert(r@ =~= limbs_seq(x@));
    r
}

/// Appends the `count` twiddles built from `root`: the Montgomery forms of
/// `root^0, root^1, ...` mod `modulus`.
fn push_twiddles(out: &mut Vec<[u64; 4]>, count: usize, root: &BigNat, modulus: &BigNat, r2: &BigNat)
    requires
        modulus@ > 0,
    ensures
        final(out).len() == old(out).len() + count,
        final(out)@.subrange(0, old(out).len() as int) == old(out)@,
        forall|k: int|
            0 <= k < count ==> (#[trigger] final(out)@[old(out).len() + k])@ == twiddle_limbs(
                root@ as int,
                k as nat,
                modulus@ as int,
            ),
{
    let ghost start = out@;
    let ghost m = modulus@ as int;
    let mut omega = BigNat::from_u64(1);
    let mut k: usize = 0;
    proof {
        lemma_pow0(root@ as int);
    }
    while k < count
        invariant
            m == modulus@,
            m > 0,
            k <= count,
            out.len() == start.len() + k,
            out@.subrange(0, start.len() as int) == start,
            (omega@ as int) % m == pow(root@ as int, k as nat) % m,
            forall|j: int|
                0 <= j < k ==> (#[trigger] out@[start.len() + j])@ == twiddle_limbs(root@ as int, j as nat, m),
        decreases count - k,
    {
        let mont = to_montgomery(&omega, modulus, r2);
        let limbs = limbs_of(&mont);
        proof {
            lemma_mul_mod_noop_left(omega@ as int, mont_radix() as int, m);
            lemma_mul_mod_noop_left(pow(root@ as int, k as nat), mont_radix() as int, m);
        }
        let ghost before = out@;
        out.push(limbs);
        proof {
            assert(out@.subrange(0, start.len() as int) =~= before.subrange(0, start.len() as int));
        }
        let ghost prev = omega@ as int;
        let prod = big_mul(&omega, root);
        omega = big_rem(&prod, modulus);
        proof {
            let r = root@ as int;
            lemma_mod_twice(prev * r, m);
            lemma_mul_mod_noop_left(prev, r, m);
            lemma_mul_mod_noop_left(pow(r, k as nat), r, m);
            lemma_pow_adds(r, k as nat, 1);
            lemma_pow1(r);
        }
        k += 1;
    }
}

/// The twiddle table of a size-`n` transform: the Montgomery forms of
/// `root^0, ..., root^(n-1)` mod `modulus`, as limbs.
fn precompute_twiddles(n: usize, modulus: BigNat, root: &BigNat, r2: &BigNat) -> (r: Vec<[u64; 4]>)
    requires
        modulus@ > 0,
    ensures
        r.len() == n,
        forall|k: int| 0 <= k < n ==> (#[trigger] r@[k])@ == twiddle_limbs(root@ as int, k as nat, modulus@ as int),
{
    let mut twiddles: Vec<[u64; 4]> = Vec::new();
    push_twiddles(&mut twiddles, n, root, &modulus, r2);
    proof {
        assert forall|k: int| 0 <= k < n implies (#[trigger] twiddles@[k])@ == twiddle_limbs(root@ as int, k as nat, modulus@ as int) by {
            assert(twiddles@[0 + k] == twiddles@[k]);
        }
    }
    twiddles
}

/// The root of stage `s` of a size-`n` transform, for `s < 32`.
fn stage_root_of(n: usize, s: u32, root: &BigNat, modulus: &BigNat) -> (r: BigNat)
    requires
        s < 32,
        modulus@ > 0,
    ensures
        r@ == stage_root(root@ as int, n as nat, s as nat, modulus@ as int),
{
    let sh = s as u64;
    proof {
        vstd::bits::lemma_u64_pow2_no_overflow((sh + 1) as nat);
        vstd::bits::lemma_u64_shl_is_mul(1, (sh + 1) as u64);
        vstd::arithmetic::power2::lemma_pow2_pos((sh + 1) as nat);
    }
    let denom = 1u64 << (sh + 1);
    let e = (n as u64) / denom;
    let exponent = BigNat::from_u64(e);
    big_modpow(root, &exponent, modulus)
}

/// The per-stage twiddle tables of a size-`n` transform, for the stages
/// `s < log` with `log` the trailing-zero count of `n` as a `u32`: stage `s`
/// holds the `2^s` twiddles built from its stage root.
pub fn precompute_stage_twiddles(n: usize, modulus: BigNat, root: &BigNat, r2: &BigNat) -> (r: Vec<Vec<[u64; 4]>>)
    requires
        modulus@ > 0,
    ensures
        r.len() == log_size(n as nat),
        forall|s: int|
            0 <= s < r.len() ==> (#[trigger] r@[s]).len() == pow2(s as nat) && forall|k: int|
                0 <= k < pow2(s as nat) ==> (#[trigger] r@[s]@[k])@ == twiddle_limbs(
                    stage_root(root@ as int, n as nat, s as nat, modulus@ as int),
                    k as nat,
                    modulus@ as int,
                ),
{
    let log_n = transform_log_size(n);
    let mut stages: Vec<Vec<[u64; 4]>> = Vec::new();
    let mut stage: u32 = 0;
    while stage < log_n
        invariant
            log_n == log_size(n as nat),
            log_n <= 32,
            modulus@ > 0,
            stage <= log_n,
            stages.len() == stage,
            forall|s: int|
                0 <= s < stage ==> (#[trigger] stages@[s]).len() == pow2(s as nat) && forall|k: int|
                    0 <= k < pow2(s as nat) ==> (#[trigger] stages@[s]@[k])@ == twiddle_limbs(
                        stage_root(root@ as int, n as nat, s as nat, modulus@ as int),
                        k as nat,
                        modulus@ as int,
                    ),
        decreases log_n - stage,
    {
        proof {
            vstd::bits::lemma_u64_pow2_no_overflow(stage as nat);
            vstd::bits::lemma_u64_shl_is_mul(1, stage as u64);
            vstd::arithmetic::power2::lemma_pow2_strictly_increases(stage as nat, 32);
            vstd::arithmetic::power2::lemma2_to64();
        }
        let step = (1u64 << (stage as u64)) as usize;
        let sr = stage_root_of(n, stage, root, &modulus);
        let mut tw: Vec<[u64; 4]> = Vec::new();
        push_twiddles(&mut tw, step, &sr, &modulus, r2);
        proof {
            assert forall|k: int| 0 <= k < pow2(stage as nat) implies (#[trigger] tw@[k])@ == twiddle_limbs(
                stage_root(root@ as int, n as nat, stage as nat, modulus@ as int),
                k as nat,
                modulus@ as int,
            ) by {
                assert(tw@[0 + k] == tw@[k]);
            }
        }
        stages.push(tw);
        stage += 1;
    }
    stages
}

/// Appends the twiddles of every stage `s < log` of a size-`n` transform
/// (`log` the trailing-zero count of `n` as a `u32`): stage `s` adds the
/// `2^s` twiddles built from its stage root, so it starts `2^s - 1` entries in.
fn push_all_stages(out: &mut Vec<[u64; 4]>, n: usize, modulus: &BigNat, root: &BigNat, r2: &BigNat)
    requires
        modulus@ > 0,
    ensures
        final(out).len() == old(out).len() + pow2(log_size(n as nat)) - 1,
        final(out)@.subrange(0, old(out).len() as int) == old(out)@,
        forall|s: int, k: int|
            0 <= s < log_size(n as nat) && 0 <= k < pow2(s as nat) ==> (#[trigger] final(out)@[old(out).len()
                + pow2(s as nat) - 1 + k])@ == twiddle_limbs(
                stage_root(root@ as int, n as nat, s as nat, modulus@ as int),
                k as nat,
                modulus@ as int,
            ),
{
    let ghost start = out@;
    let log_n = transform_log_size(n);
    let mut stage: u32 = 0;
    proof {
        vstd::arithmetic::power2::lemma2_to64();
    }
    while stage < log_n
        invariant
            log_n == log_size(n as nat),
            log_n <= 32,
            modulus@ > 0,
            stage <= log_n,
            out.len() == start.len() + pow2(stage as nat) - 1,
            out@.subrange(0, start.len() as int) == start,
            forall|s: int, k: int|
                0 <= s < stage && 0 <= k < pow2(s as nat) ==> (#[trigger] out@[start.len() + pow2(s as nat) - 1
                    + k])@ == twiddle_limbs(
                    stage_root(root@ as int, n as nat, s as nat, modulus@ as int),
                    k as nat,
                    modulus@ as int,
                ),
        decreases log_n - stage,
    {
        proof {
            vstd::bits::lemma_u64_pow2_no_overflow(stage as nat);
            vstd::bits::lemma_u64_shl_is_mul(1, stage as u64);
            vstd::arithmetic::power2::lemma_pow2_strictly_increases(stage as nat, 32);
            vstd::arithmetic::power2::lemma_pow2_unfold((stage + 1) as nat);
            vstd::arithmetic::power2::lemma2_to64();
        }
        let step = (1u64 << (stage as u64)) as usize;
        assert(step == pow2(stage as nat));
        let sr = stage_root_of(n, stage, root, modulus);
        let ghost before = out@;
        push_twiddles(out, step, &sr, modulus, r2);
        proof {
            assert(out@.subrange(0, start.len() as int) =~= before.subrange(0, start.len() as int));
            assert forall|s: int, k: int|
                0 <= s < stage + 1 && 0 <= k < pow2(s as nat) implies (#[trigger] out@[start.len() + pow2(s as nat)
                    - 1 + k])@ == twiddle_limbs(
                    stage_root(root@ as int, n as nat, s as nat, modulus@ as int),
                    k as nat,
                    modulus@ as int,
                ) by {
                if s < stage {
                    vstd::arithmetic::power2::lemma_pow2_strictly_increases(s as nat, stage as nat);
                    assert(out@[start.len() + pow2(s as nat) - 1 + k] == before[start.len() + pow2(s as nat) - 1 + k]);
                }
            }
        }
        stage += 1;
    }
    proof {
        assert forall|s: int, k: int|
            0 <= s < log_size(n as nat) && 0 <= k < pow2(s as nat) implies (#[trigger] out@[old(out).len() + pow2(
                s as nat,
            ) - 1 + k])@ == twiddle_limbs(
                stage_root(root@ as int, n as nat, s as nat, modulus@ as int),
                k as nat,
                modulus@ as int,
            ) by {
            assert(start.len() == old(out).len());
            assert(out@[start.len() + pow2(s as nat) - 1 + k] == out@[old(out).len() + pow2(s as nat) - 1 + k]);
        }
    }
}

/// The twiddles of all stages of a size-`n` transform, one stage after the
/// other (stage `s` starts `2^s - 1` entries in).
pub fn precompute_all_twiddles_flat(n: usize, modulus: BigNat, root: &BigNat, r2: &BigNat) -> (r: Vec<[u64; 4]>)
    requires
        modulus@ > 0,
    ensures
        r.len() == pow2(log_size(n as nat)) - 1,
        forall|s: int, k: int|
            0 <= s < log_size(n as nat) && 0 <= k < pow2(s as nat) ==> (#[trigger] r@[pow2(s as nat) - 1 + k])@
                == twiddle_limbs(stage_root(root@ as int, n as nat, s as nat, modulus@ as int), k as nat, modulus@ as int),
{
    let mut all: Vec<[u64; 4]> = Vec::new();
    push_all_stages(&mut all, n, &modulus, root, r2);
    proof {
        assert forall|s: int, k: int|
            0 <= s < log_size(n as nat) && 0 <= k < pow2(s as nat) implies (#[trigger] all@[pow2(s as nat) - 1 + k])@
                == twiddle_limbs(stage_root(root@ as int, n as nat, s as nat, modulus@ as int), k as nat, modulus@ as int) by {
            assert(all@[0 + pow2(s as nat) - 1 + k] == all@[pow2(s as nat) - 1 + k]);
        }
    }
    all
}

/// The all-stage twiddle table of a size-`n` transform, repeated once per
/// transform of a batch of `batch_size`. The size is at least 1 and the
/// capacity asked for, `batch_size * (n - 1)`, fits a `usize`.
pub fn precompute_all_twiddles_2d(n: usize, batch_size: usize, modulus: BigNat, root: &BigNat, r2: &BigNat) -> (r: Vec<[u64; 4]>)
    requires
        n >= 1,
        batch_size * (n - 1) <= usize::MAX,
        modulus@ > 0,
    ensures
        r.len() == batch_size * (pow2(log_size(n as nat)) - 1),
        forall|b: int, s: int, k: int|
            0 <= b < batch_size && 0 <= s < log_size(n as nat) && 0 <= k < pow2(s as nat) ==> (#[trigger] r@[b * (
                pow2(log_size(n as nat)) - 1) + pow2(s as nat) - 1 + k])@ == twiddle_limbs(
                stage_root(root@ as int, n as nat, s as nat, modulus@ as int),
                k as nat,
                modulus@ as int,
            ),
{
    let total_twiddles_per_fft = n - 1;
    let mut all: Vec<[u64; 4]> = Vec::with_capacity(batch_size * total_twiddles_per_fft);
    let ghost t = pow2(log_size(n as nat)) - 1;
    let mut fft_id: usize = 0;
    while fft_id < batch_size
        invariant
            modulus@ > 0,
            t == pow2(log_size(n as nat)) - 1,
            fft_id <= batch_size,
            all.len() == fft_id * t,
            forall|b: int, s: int, k: int|
                0 <= b < fft_id && 0 <= s < log_size(n as nat) && 0 <= k < pow2(s as nat) ==> (#[trigger] all@[b * t
                    + pow2(s as nat) - 1 + k])@ == twiddle_limbs(
                    stage_root(root@ as int, n as nat, s as nat, modulus@ as int),
                    k as nat,
                    modulus@ as int,
                ),
        decreases batch_size - fft_id,
    {
        let ghost before = all@;
        push_all_stages(&mut all, n, &modulus, root, r2);
        proof {
            assert(all.len() == (fft_id + 1) * t) by (nonlinear_arith)
                requires
                    all.len() == fft_id * t + t,
            ;
            assert forall|b: int, s: int, k: int|
                0 <= b < fft_id + 1 && 0 <= s < log_size(n as nat) && 0 <= k < pow2(s as nat) implies (#[trigger] all@[b
                    * t + pow2(s as nat) - 1 + k])@ == twiddle_limbs(
                    stage_root(root@ as int, n as nat, s as nat, modulus@ as int),
                    k as nat,
                    modulus@ as int,
                ) by {
                if b < fft_id {
                    assert(pow2(s as nat) - 1 + k < t) by {
                        vstd::arithmetic::power2::lemma_pow2_unfold((s + 1) as nat);
                        if s + 1 < log_size(n as nat) {
                            vstd::arithmetic::power2::lemma_pow2_strictly_increases((s + 1) as nat, log_size(n as nat));
                        }
                    }
                    assert(b * t + pow2(s as nat) - 1 + k < fft_id * t) by (nonlinear_arith)
                        requires
                            0 <= b < fft_id,
                            pow2(s as nat) - 1 + k < t,
                            0 <= pow2(s as nat) - 1 + k,
                    ;
                    assert(all@[b * t + pow2(s as nat) - 1 + k] == before[b * t + pow2(s as nat) - 1 + k]);
                } else {
                    assert(b * t == before.len());
                }
            }
        }
        fft_id += 1;
    }
    all
}

} // verus!
