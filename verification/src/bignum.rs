//! Natural numbers of any size, held as base-`2^32` digits (least significant
//! first), with their arithmetic computed by the `num-bigint` crate.

use vstd::prelude::*;
use vstd::arithmetic::power::pow;
use vstd::arithmetic::power2::pow2;
use num_bigint::BigUint;

verus! {

/// `2^32`, the base of the digits.
pub open spec fn digit_base() -> nat {
    0x1_0000_0000
}

/// The number whose base-`2^32` digits, least significant first, are `d`.
pub open spec fn digits_value(d: Seq<u32>) -> nat
    decreases d.len(),
{
    if d.len() == 0 {
        0
    } else {
        d[0] as nat + digit_base() * digits_value(d.drop_first())
    }
}

/// The shortest big-endian bytes of `n`: one byte below 256 (so `[0]` for
/// zero), otherwise no leading zero byte.
pub open spec fn be_bytes(n: nat) -> Seq<u8>
    decreases n,
{
    if n < 256 {
        seq![n as u8]
    } else {
        be_bytes(n / 256).push((n % 256) as u8)
    }
}

/// The number whose little-endian bytes are `b`.
pub open spec fn le_bytes_value(b: Seq<u8>) -> nat
    decreases b.len(),
{
    if b.len() == 0 {
        0
    } else {
        b[0] as nat + 256 * le_bytes_value(b.drop_first())
    }
}

/// A natural number of any size.
pub struct BigNat {
    digits: Vec<u32>,
}

impl View for BigNat {
    type V = nat;

    closed spec fn view(&self) -> nat {
        digits_value(self.digits@)
    }
}

impl Clone for BigNat {
    fn clone(&self) -> (r: Self)
        ensures
            r@ == self@,
    {
        let digits = self.digits.clone();
        assert(digits@ =~= self.digits@);
        BigNat { digits }
    }
}

impl BigNat {
    /// The number with base-`2^32` digits `digits`, least significant first.
    pub fn from_digits(digits: Vec<u32>) -> (r: Self)
        ensures
            r@ == digits_value(digits@),
    {
        BigNat { digits }
    }

    /// The base-`2^32` digits, least significant first.
    pub fn digits(&self) -> (d: &Vec<u32>)
        ensures
            digits_value(d@) == self@,
    {
        &self.digits
    }

    /// The number `v`.
    pub fn from_u64(v: u64) -> (r: Self)
        ensures
            r@ == v,
    {
        let lo = (v % 0x1_0000_0000) as u32;
        let hi = (v / 0x1_0000_0000) as u32;
        let mut digits: Vec<u32> = Vec::new();
        digits.push(lo);
        digits.push(hi);
        proof {
            let d = digits@;
            let e = d.drop_first();
            assert(e.len() == 1 && e[0] == hi);
            assert(e.drop_first() =~= Seq::<u32>::empty());
            assert(digits_value(e.drop_first()) == 0);
            assert(digits_value(e) == hi as nat + digit_base() * 0);
            assert(digits_value(d) == lo as nat + digit_base() * (hi as nat));
        }
        BigNat { digits }
    }
}

/// `num_bigint::BigUint` addition: `a + b`.
#[verifier::external_body]
pub(crate) fn big_add(a: &BigNat, b: &BigNat) -> (r: BigNat)
    ensures
        r@ == a@ + b@,
{
    BigNat { digits: (BigUint::from_slice(&a.digits) + BigUint::from_slice(&b.digits)).to_u32_digits() }
}

/// `num_bigint::BigUint` subtraction: `a - b`, which panics below zero.
#[verifier::external_body]
pub(crate) fn big_sub(a: &BigNat, b: &BigNat) -> (r: BigNat)
    requires
        a@ >= b@,
    ensures
        r@ == a@ - b@,
{
    BigNat { digits: (BigUint::from_slice(&a.digits) - BigUint::from_slice(&b.digits)).to_u32_digits() }
}

/// `num_bigint::BigUint` multiplication: `a * b`.
#[verifier::external_body]
pub(crate) fn big_mul(a: &BigNat, b: &BigNat) -> (r: BigNat)
    ensures
        r@ == a@ * b@,
{
    BigNat { digits: (BigUint::from_slice(&a.digits) * BigUint::from_slice(&b.digits)).to_u32_digits() }
}

/// `num_bigint::BigUint` remainder: `a % m`, which panics for `m == 0`.
#[verifier::external_body]
pub(crate) fn big_rem(a: &BigNat, m: &BigNat) -> (r: BigNat)
    requires
        m@ > 0,
    ensures
        r@ == a@ % m@,
{
    BigNat { digits: (BigUint::from_slice(&a.digits) % BigUint::from_slice(&m.digits)).to_u32_digits() }
}

/// `num_bigint::BigUint` division: `a / m` rounded down, which panics for `m == 0`.
#[verifier::external_body]
pub(crate) fn big_div(a: &BigNat, m: &BigNat) -> (r: BigNat)
    requires
        m@ > 0,
    ensures
        r@ == a@ / m@,
{
    BigNat { digits: (BigUint::from_slice(&a.digits) / BigUint::from_slice(&m.digits)).to_u32_digits() }
}

/// `num_bigint::BigUint::modpow`: `b^e mod m`, which panics for `m == 0`.
#[verifier::external_body]
pub(crate) fn big_modpow(b: &BigNat, e: &BigNat, m: &BigNat) -> (r: BigNat)
    requires
        m@ > 0,
    ensures
        r@ == pow(b@ as int, e@) % (m@ as int),
{
    let big = BigUint::from_slice(&b.digits).modpow(&BigUint::from_slice(&e.digits), &BigUint::from_slice(&m.digits));
    BigNat { digits: big.to_u32_digits() }
}

/// `num_bigint::BigUint` left shift: `a * 2^k`.
#[verifier::external_body]
pub(crate) fn big_shl(a: &BigNat, k: usize) -> (r: BigNat)
    ensures
        r@ == a@ * pow2(k as nat),
{
    BigNat { digits: (BigUint::from_slice(&a.digits) << k).to_u32_digits() }
}

/// `num_bigint::BigUint` comparison: whether `a <= b`.
#[verifier::external_body]
pub(crate) fn big_le(a: &BigNat, b: &BigNat) -> (r: bool)
    ensures
        r == (a@ <= b@),
{
    BigUint::from_slice(&a.digits) <= BigUint::from_slice(&b.digits)
}

/// `num_bigint::BigUint` equality: whether `a == b`.
#[verifier::external_body]
pub(crate) fn big_eq(a: &BigNat, b: &BigNat) -> (r: bool)
    ensures
        r == (a@ == b@),
{
    BigUint::from_slice(&a.digits) == BigUint::from_slice(&b.digits)
}

/// `num_bigint::BigUint::to_bytes_be`: the shortest big-endian bytes of `a`
/// (`[0]` for zero).
#[verifier::external_body]
pub(crate) fn big_to_bytes_be(a: &BigNat) -> (r: Vec<u8>)
    ensures
        r@ == be_bytes(a@),
{
    BigUint::from_slice(&a.digits).to_bytes_be()
}

/// `num_bigint::BigUint::to_bytes_le`: the bytes of `to_bytes_be` in the
/// opposite order.
#[verifier::external_body]
pub(crate) fn big_to_bytes_le(a: &BigNat) -> (r: Vec<u8>)
    ensures
        r@ == be_bytes(a@).reverse(),
{
    BigUint::from_slice(&a.digits).to_bytes_le()
}

/// `num_bigint::BigUint::from_bytes_le`: the number with little-endian bytes `b`.
#[verifier::external_body]
pub(crate) fn big_from_bytes_le(b: &[u8]) -> (r: BigNat)
    ensures
        r@ == le_bytes_value(b@),
{
    BigNat { digits: BigUint::from_bytes_le(b).to_u32_digits() }
}

/// `num_bigint::BigUint::to_u64_digits()[0]`: the lowest base-`2^64` digit of
/// `a`; the digit list of zero is empty, so indexing it panics.
#[verifier::external_body]
pub(crate) fn big_low_u64(a: &BigNat) -> (r: u64)
    requires
        a@ > 0,
    ensures
        r == a@ % 0x1_0000_0000_0000_0000,
{
    BigUint::from_slice(&a.digits).to_u64_digits()[0]
}

} // verus!
