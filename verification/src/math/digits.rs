//! Base-256 digits: the little-endian bytes of a number, the bytes that
//! `be_bytes` gives read backwards, and numbers assembled from runs of bytes.

use vstd::prelude::*;
use vstd::arithmetic::div_mod::*;
use vstd::arithmetic::mul::*;
use vstd::arithmetic::power::*;
use crate::bignum::{be_bytes, le_bytes_value};

verus! {

/// Byte `k` of `b`, zero past its end.
pub open spec fn byte_at(b: Seq<u8>, k: int) -> int {
    if 0 <= k < b.len() {
        b[k] as int
    } else {
        0
    }
}

/// `b[off] + 256 b[off+1] + ... + 256^(len-1) b[off+len-1]`.
pub open spec fn le_chunk(b: Seq<int>, off: int, len: nat) -> int
    decreases len,
{
    if len == 0 {
        0
    } else {
        b[off] + 256 * le_chunk(b, off + 1, (len - 1) as nat)
    }
}

/// The shortest big-endian bytes of `n`, read backwards, are its
/// little-endian bytes.
pub proof fn lemma_be_bytes_value(n: nat)
    ensures
        le_bytes_value(be_bytes(n).reverse()) == n,
    decreases n,
{
    if n < 256 {
        let r = be_bytes(n).reverse();
        assert(r =~= seq![n as u8]);
        assert(r.drop_first() =~= Seq::<u8>::empty());
        assert(le_bytes_value(r.drop_first()) == 0);
    } else {
        let b = be_bytes(n / 256);
        lemma_be_bytes_value(n / 256);
        let r = be_bytes(n).reverse();
        assert(be_bytes(n) == b.push((n % 256) as u8));
        assert(r.drop_first() =~= b.reverse());
        assert(r[0] == (n % 256) as u8);
        lemma_fundamental_div_mod(n as int, 256);
    }
}

/// Byte `k` of little-endian bytes with value `v` is digit `k` of `v` in
/// base 256 (and zero past the end).
pub proof fn lemma_le_byte(b: Seq<u8>, k: nat)
    ensures
        byte_at(b, k as int) == (le_bytes_value(b) as int / pow(256, k)) % 256,
    decreases b.len(),
{
    let v = le_bytes_value(b) as int;
    lemma_pow_positive(256, k);
    if b.len() == 0 {
        lemma_div_basics(pow(256, k));
    } else {
        let rest = b.drop_first();
        let w = le_bytes_value(rest) as int;
        assert(v == b[0] + 256 * w);
        if k == 0 {
            lemma_pow0(256);
            lemma_mod_multiples_vanish(w, b[0] as int, 256);
            lemma_small_mod(b[0] as nat, 256);
        } else {
            lemma_le_byte(rest, (k - 1) as nat);
            assert(byte_at(b, k as int) == byte_at(rest, k - 1));
            lemma_pow_positive(256, (k - 1) as nat);
            lemma_pow_adds(256, 1, (k - 1) as nat);
            lemma_pow1(256);
            lemma_div_denominator(v, 256, pow(256, (k - 1) as nat));
            lemma_div_multiples_vanish_fancy(w, b[0] as int, 256);
            lemma_mul_is_commutative(256, w);
        }
    }
}

/// A run of `len` base-256 digits of `v` starting at digit `off`, assembled
/// little-endian, is `(v / 256^off) mod 256^len`.
pub proof fn lemma_le_chunk_digits(v: nat, b: Seq<int>, off: nat, len: nat)
    requires
        forall|k: int| off <= k < off + len ==> #[trigger] b[k] == (v as int / pow(256, k as nat)) % 256,
    ensures
        le_chunk(b, off as int, len) == (v as int / pow(256, off)) % pow(256, len),
    decreases len,
{
    lemma_pow_positive(256, off);
    lemma_pow_positive(256, len);
    let w = v as int / pow(256, off);
    if len == 0 {
        lemma_pow0(256);
        lemma_mod_bound(w, 1);
    } else {
        lemma_le_chunk_digits(v, b, off + 1, (len - 1) as nat);
        lemma_pow_positive(256, (len - 1) as nat);
        lemma_pow_adds(256, off, 1);
        lemma_pow_adds(256, 1, (len - 1) as nat);
        lemma_pow1(256);
        lemma_div_denominator(v as int, pow(256, off), 256);
        lemma_mul_is_commutative(pow(256, off), 256);
        assert(b[off as int] == w % 256);
        lemma_mod_breakdown(w, 256, pow(256, (len - 1) as nat));
    }
}

/// `le_chunk` of byte values is below `256^len`.
pub proof fn lemma_le_chunk_bound(b: Seq<int>, off: int, len: nat)
    requires
        forall|k: int| off <= k < off + len ==> 0 <= #[trigger] b[k] < 256,
    ensures
        0 <= le_chunk(b, off, len) < pow(256, len),
    decreases len,
{
    if len == 0 {
        lemma_pow0(256);
    } else {
        lemma_le_chunk_bound(b, off + 1, (len - 1) as nat);
        lemma_pow_adds(256, 1, (len - 1) as nat);
        lemma_pow1(256);
        assert(b[off] + 256 * le_chunk(b, off + 1, (len - 1) as nat) < 256 * pow(256, (len - 1) as nat))
            by (nonlinear_arith)
            requires
                0 <= b[off] < 256,
                0 <= le_chunk(b, off + 1, (len - 1) as nat) < pow(256, (len - 1) as nat),
        ;
    }
}

/// The digits of `v`, stored from position `base` on, assembled: a run of
/// `len` of them from digit `off` is `(v / 256^off) mod 256^len`.
pub proof fn lemma_le_chunk_digits_at(v: nat, b: Seq<int>, base: int, off: nat, len: nat)
    requires
        forall|k: int|
            base + off <= k < base + off + len ==> #[trigger] b[k] == (v as int / pow(256, (k - base) as nat))
                % 256,
    ensures
        le_chunk(b, base + off, len) == (v as int / pow(256, off)) % pow(256, len),
    decreases len,
{
    lemma_pow_positive(256, off);
    lemma_pow_positive(256, len);
    let w = v as int / pow(256, off);
    if len == 0 {
        lemma_pow0(256);
        lemma_mod_bound(w, 1);
    } else {
        lemma_le_chunk_digits_at(v, b, base, off + 1, (len - 1) as nat);
        lemma_pow_positive(256, (len - 1) as nat);
        lemma_pow_adds(256, off, 1);
        lemma_pow_adds(256, 1, (len - 1) as nat);
        lemma_pow1(256);
        lemma_div_denominator(v as int, pow(256, off), 256);
        lemma_mul_is_commutative(pow(256, off), 256);
        assert(b[base + off] == w % 256);
        assert(base + (off + 1) == base + off + 1);
        lemma_mod_breakdown(w, 256, pow(256, (len - 1) as nat));
    }
}

/// A run of `a + c` bytes is the first `a` plus `256^a` times the next `c`.
pub proof fn lemma_le_chunk_split(b: Seq<int>, off: int, a: nat, c: nat)
    ensures
        le_chunk(b, off, a + c) == le_chunk(b, off, a) + pow(256, a) * le_chunk(b, off + a, c),
    decreases a,
{
    if a == 0 {
        lemma_pow0(256);
    } else {
        lemma_le_chunk_split(b, off + 1, (a - 1) as nat, c);
        assert((a + c - 1) as nat == (a - 1) as nat + c);
        lemma_pow_adds(256, 1, (a - 1) as nat);
        lemma_pow1(256);
        assert(off + 1 + (a - 1) == off + a);
        lemma_mul_is_associative(256, pow(256, (a - 1) as nat), le_chunk(b, off + a, c));
        lemma_mul_is_distributive_add(256, le_chunk(b, off + 1, (a - 1) as nat), pow(256, (a - 1) as nat) * le_chunk(b, off + a, c));
    }
}

/// Little-endian bytes read as a number are the run of all of them.
pub proof fn lemma_le_bytes_chunk(b: Seq<u8>, off: int, len: nat)
    requires
        0 <= off,
        off + len <= b.len(),
    ensures
        le_bytes_value(b.subrange(off, off + len)) == le_chunk(b.map_values(|x: u8| x as int), off, len),
    decreases len,
{
    let s = b.subrange(off, off + len);
    if len > 0 {
        lemma_le_bytes_chunk(b, off + 1, (len - 1) as nat);
        assert(s.drop_first() =~= b.subrange(off + 1, off + 1 + (len - 1)));
    } else {
        assert(s =~= Seq::<u8>::empty());
    }
}

} // verus!
