//! BabyBear field elements held in a `u64`, with modular exponentiation,
//! Fermat inversion and the two-adic roots of unity.
//!
//! p = 2^31 - 2^27 + 1 = 2013265921. Constructors reduce mod p; the
//! operations keep canonical values canonical.

use vstd::prelude::*;
use vstd::arithmetic::div_mod::*;
use vstd::arithmetic::mul::*;
use vstd::arithmetic::power::*;
use vstd::arithmetic::power2::{lemma2_to64, lemma_pow2, lemma_pow2_adds, lemma_pow2_strictly_increases, pow2};
use vstd::bits::{lemma_u64_pow2_no_overflow, lemma_u64_shl_is_mul};
use crate::math::powmod::{lemma_pow_minus_one, lemma_pow_mod_spec};
use crate::ntt::babybear_roots::{lemma_babybear_fermat, lemma_eval_31_fifteen, lemma_eval_31_half};

verus! {

/// The BabyBear prime 2^31 - 2^27 + 1.
pub const BABYBEAR_PRIME: u64 = 2013265921;

/// A BabyBear field element.
#[derive(Debug, Clone, Copy, PartialEq, Eq, Structural)]
pub struct BabyBear {
    pub value: u64,
}

/// The little-endian bytes of a `u64`, as arithmetic on its value.
pub open spec fn le_bytes_u64(v: u64) -> Seq<u8> {
    seq![
        (v % 256) as u8,
        ((v / 0x100) % 256) as u8,
        ((v / 0x1_0000) % 256) as u8,
        ((v / 0x100_0000) % 256) as u8,
        ((v / 0x1_0000_0000) % 256) as u8,
        ((v / 0x100_0000_0000) % 256) as u8,
        ((v / 0x1_0000_0000_0000) % 256) as u8,
        ((v / 0x100_0000_0000_0000) % 256) as u8,
    ]
}

/// The `u64` whose little-endian bytes are the first eight of `b`.
pub open spec fn le_u64(b: Seq<u8>) -> int {
    b[0] + 256 * (b[1] + 256 * (b[2] + 256 * (b[3] + 256 * (b[4] + 256 * (b[5] + 256 * (b[6]
        + 256 * b[7]))))))
}

/// `v` minus p once when it is at least p.
pub open spec fn reduce_spec(v: u64) -> u64 {
    if v >= BABYBEAR_PRIME {
        (v - BABYBEAR_PRIME) as u64
    } else {
        v
    }
}

/// `v` minus p at most twice, while it is at least p.
pub open spec fn reduce_wide_spec(v: u64) -> u64 {
    reduce_spec(reduce_spec(v))
}

impl BabyBear {
    /// The element is in canonical form.
    pub open spec fn is_canonical(self) -> bool {
        self.value < BABYBEAR_PRIME
    }

    /// The element `value mod p`.
    pub fn new(value: u64) -> (r: Self)
        ensures
            r.value == value % BABYBEAR_PRIME,
            r.is_canonical(),
    {
        Self { value: value % BABYBEAR_PRIME }
    }

    pub fn zero() -> (r: Self)
        ensures
            r.value == 0,
    {
        Self { value: 0 }
    }

    pub fn one() -> (r: Self)
        ensures
            r.value == 1,
    {
        Self { value: 1 }
    }

    /// The element `value mod p`.
    pub fn from_u32(value: u32) -> (r: Self)
        ensures
            r.value == value as u64 % BABYBEAR_PRIME,
    {
        Self::new(value as u64)
    }

    /// The eight little-endian bytes of the value.
    pub fn to_bytes(&self) -> (r: [u8; 8])
        ensures
            r@ == le_bytes_u64(self.value),
    {
        let v = self.value;
        let r = [
            (v % 256) as u8,
            ((v / 0x100) % 256) as u8,
            ((v / 0x1_0000) % 256) as u8,
            ((v / 0x100_0000) % 256) as u8,
            ((v / 0x1_0000_0000) % 256) as u8,
            ((v / 0x100_0000_0000) % 256) as u8,
            ((v / 0x1_0000_0000_0000) % 256) as u8,
            ((v / 0x100_0000_0000_0000) % 256) as u8,
        ];
        assert(r@ =~= le_bytes_u64(v));
        r
    }

    /// The element whose value is the little-endian `u64` in the first eight
    /// bytes, reduced mod p.
    pub fn from_bytes(bytes: &[u8]) -> (r: Self)
        requires
            bytes.len() >= 8,
        ensures
            r.value == le_u64(bytes@) % (BABYBEAR_PRIME as int),
    {
        let v: u64 = bytes[0] as u64 + 256 * (bytes[1] as u64 + 256 * (bytes[2] as u64 + 256 * (
        bytes[3] as u64 + 256 * (bytes[4] as u64 + 256 * (bytes[5] as u64 + 256 * (bytes[6] as u64
            + 256 * bytes[7] as u64))))));
        Self::new(v)
    }

    /// `self^exp mod p` by square-and-multiply.
    pub fn pow(self, exp: u64) -> (r: Self)
        ensures
            r.value == pow(self.value as int, exp as nat) % (BABYBEAR_PRIME as int),
    {
        if exp == 0 {
            proof {
                lemma_pow0(self.value as int);
                lemma_small_mod(1, BABYBEAR_PRIME as nat);
            }
            return Self::one();
        }
        let ghost v0 = self.value as int;
        let ghost e0 = exp;
        let ghost p = BABYBEAR_PRIME as int;
        let mut base = self;
        let mut result = Self::one();
        let mut exp = exp;
        proof {
            lemma_mul_basics(pow(base.value as int, exp as nat));
        }
        while exp > 0
            invariant
                p == BABYBEAR_PRIME as int,
                result.value < BABYBEAR_PRIME,
                (result.value * pow(base.value as int, exp as nat)) % p == pow(v0, e0 as nat) % p,
            decreases exp,
        {
            let ghost r_old = result.value as int;
            let ghost b_old = base.value as int;
            let ghost e_old = exp;
            proof {
                assert((exp & 1) == exp % 2) by (bit_vector);
                assert(exp >> 1 == exp / 2) by (bit_vector);
            }
            if exp & 1 == 1 {
                result = result * base;
            }
            base = base * base;
            exp >>= 1;
            proof {
                let e = exp as nat;
                let sq = b_old * b_old;
                assert(pow(b_old, 2) == sq) by {
                    reveal(pow);
                    lemma_pow1(b_old);
                }
                lemma_pow_multiplies(b_old, 2, e);
                lemma_pow_mod_noop(sq, e, p);
                let rest = pow(sq, e);
                let rest_m = pow(base.value as int, e);
                assert(rest_m % p == rest % p);
                if e_old % 2 == 1 {
                    assert(e_old as nat == 2 * e + 1);
                    lemma_pow_adds(b_old, 2 * e, 1);
                    lemma_pow1(b_old);
                    assert(r_old * pow(b_old, e_old as nat) == (r_old * b_old) * rest) by {
                        lemma_mul_is_associative(r_old, b_old, rest);
                        lemma_mul_is_commutative(rest, b_old);
                        lemma_mul_is_associative(r_old, rest, b_old);
                    }
                    lemma_mul_mod_noop_left(r_old * b_old, rest, p);
                    lemma_mul_mod_noop_right(result.value as int, rest, p);
                    lemma_mul_mod_noop_right(result.value as int, rest_m, p);
                } else {
                    assert(e_old as nat == 2 * e);
                    lemma_mul_mod_noop_right(result.value as int, rest, p);
                    lemma_mul_mod_noop_right(result.value as int, rest_m, p);
                }
            }
        }
        proof {
            lemma_pow0(base.value as int);
            lemma_small_mod(result.value as nat, BABYBEAR_PRIME as nat);
        }
        result
    }

    /// The inverse `self^(p-2)` (Fermat's little theorem).
    pub fn inverse(self) -> (r: Self)
        requires
            self.value != 0,
        ensures
            r.value == pow(self.value as int, (BABYBEAR_PRIME - 2) as nat) % (BABYBEAR_PRIME as int),
    {
        self.pow(BABYBEAR_PRIME - 2)
    }

    /// The element of order `2^log_n`: the fixed primitive `2^27`-th root of
    /// unity 440564289 (= 31^15 mod p) raised to `2^(27 - log_n)`.
    pub fn get_root_of_unity(log_n: u32) -> (r: Self)
        requires
            log_n <= 27,
        ensures
            r.value == pow(440564289, pow2((27 - log_n) as nat)) % (BABYBEAR_PRIME as int),
    {
        let shift: u64 = (27 - log_n) as u64;
        proof {
            lemma_u64_pow2_no_overflow(shift as nat);
            if shift < 27 {
                lemma_pow2_strictly_increases(shift as nat, 27);
            }
            lemma_pow2(27);
            assert(pow(2, 27) == 134217728) by {
                reveal_with_fuel(pow, 28);
            }
            lemma_u64_shl_is_mul(1, shift);
        }
        let exp = 1u64 << shift;
        Self::new(440564289).pow(exp)
    }

    /// One conditional subtraction of p.
    fn reduce(val: u64) -> (r: u64)
        ensures
            r == reduce_spec(val),
    {
        if val >= BABYBEAR_PRIME {
            val - BABYBEAR_PRIME
        } else {
            val
        }
    }

    /// Two conditional subtractions of p.
    fn reduce_wide(val: u64) -> (r: u64)
        ensures
            r == reduce_wide_spec(val),
    {
        let mut v = val;
        if v >= BABYBEAR_PRIME {
            v -= BABYBEAR_PRIME;
        }
        if v >= BABYBEAR_PRIME {
            v -= BABYBEAR_PRIME;
        }
        v
    }
}

impl core::ops::Add for BabyBear {
    type Output = Self;

    fn add(self, rhs: Self) -> (r: Self) {
        let sum = self.value + rhs.value;
        Self { value: Self::reduce_wide(sum) }
    }
}

impl vstd::std_specs::ops::AddSpecImpl for BabyBear {
    open spec fn obeys_add_spec() -> bool {
        true
    }

    /// The sum of the two values fits in a `u64`.
    open spec fn add_req(self, rhs: Self) -> bool {
        self.value + rhs.value <= u64::MAX
    }

    open spec fn add_spec(self, rhs: Self) -> Self {
        BabyBear { value: reduce_wide_spec((self.value + rhs.value) as u64) }
    }
}

impl core::ops::AddAssign for BabyBear {
    fn add_assign(&mut self, rhs: Self)
        requires
            old(self).value + rhs.value <= u64::MAX,
        ensures
            final(self).value == reduce_wide_spec((old(self).value + rhs.value) as u64),
    {
        *self = *self + rhs;
    }
}

/// `a - b`, lifted by p when `a < b`.
pub open spec fn sub_value(a: u64, b: u64) -> u64 {
    if a >= b {
        (a - b) as u64
    } else {
        (a + BABYBEAR_PRIME - b) as u64
    }
}

impl core::ops::Sub for BabyBear {
    type Output = Self;

    fn sub(self, rhs: Self) -> (r: Self) {
        let diff = if self.value >= rhs.value {
            self.value - rhs.value
        } else {
            self.value + BABYBEAR_PRIME - rhs.value
        };
        Self { value: diff }
    }
}

impl vstd::std_specs::ops::SubSpecImpl for BabyBear {
    open spec fn obeys_sub_spec() -> bool {
        true
    }

    /// When `self < rhs`, `self + p` neither overflows nor falls below `rhs`.
    open spec fn sub_req(self, rhs: Self) -> bool {
        self.value >= rhs.value || (self.value + BABYBEAR_PRIME <= u64::MAX && rhs.value
            <= self.value + BABYBEAR_PRIME)
    }

    open spec fn sub_spec(self, rhs: Self) -> Self {
        BabyBear { value: sub_value(self.value, rhs.value) }
    }
}

impl core::ops::Mul for BabyBear {
    type Output = Self;

    fn mul(self, rhs: Self) -> (r: Self) {
        let a = self.value as u128;
        let b = rhs.value as u128;
        assert(a * b <= u128::MAX) by (nonlinear_arith)
            requires
                a <= u64::MAX,
                b <= u64::MAX,
        ;
        let product = a * b;
        Self { value: (product % (BABYBEAR_PRIME as u128)) as u64 }
    }
}

impl vstd::std_specs::ops::MulSpecImpl for BabyBear {
    open spec fn obeys_mul_spec() -> bool {
        true
    }

    open spec fn mul_req(self, rhs: Self) -> bool {
        true
    }

    open spec fn mul_spec(self, rhs: Self) -> Self {
        BabyBear { value: ((self.value * rhs.value) % (BABYBEAR_PRIME as int)) as u64 }
    }
}

impl core::ops::SubAssign for BabyBear {
    fn sub_assign(&mut self, rhs: Self)
        requires
            old(self).value >= rhs.value || (old(self).value + BABYBEAR_PRIME <= u64::MAX && rhs.value
                <= old(self).value + BABYBEAR_PRIME),
        ensures
            final(self).value == sub_value(old(self).value, rhs.value),
    {
        *self = *self - rhs;
    }
}

impl core::ops::MulAssign for BabyBear {
    fn mul_assign(&mut self, rhs: Self)
        ensures
            final(self).value == (old(self).value * rhs.value) % (BABYBEAR_PRIME as int),
    {
        *self = *self * rhs;
    }
}

impl core::ops::Div for BabyBear {
    type Output = Self;

    fn div(self, rhs: Self) -> (r: Self) {
        self * rhs.inverse()
    }
}

impl vstd::std_specs::ops::DivSpecImpl for BabyBear {
    open spec fn obeys_div_spec() -> bool {
        true
    }

    /// The divisor is not zero.
    open spec fn div_req(self, rhs: Self) -> bool {
        rhs.value != 0
    }

    open spec fn div_spec(self, rhs: Self) -> Self {
        BabyBear {
            value: ((self.value * (pow(rhs.value as int, (BABYBEAR_PRIME - 2) as nat) % (
            BABYBEAR_PRIME as int))) % (BABYBEAR_PRIME as int)) as u64,
        }
    }
}

impl core::ops::Neg for BabyBear {
    type Output = Self;

    fn neg(self) -> (r: Self) {
        if self.value == 0 {
            self
        } else {
            Self { value: BABYBEAR_PRIME - self.value }
        }
    }
}

impl vstd::std_specs::ops::NegSpecImpl for BabyBear {
    open spec fn obeys_neg_spec() -> bool {
        true
    }

    /// The value is at most p.
    open spec fn neg_req(self) -> bool {
        self.value <= BABYBEAR_PRIME
    }

    open spec fn neg_spec(self) -> Self {
        if self.value == 0 {
            self
        } else {
            BabyBear { value: (BABYBEAR_PRIME - self.value) as u64 }
        }
    }
}

/// The root of unity for `2^log_n` has order exactly `2^log_n`: its
/// `2^log_n`-th power is 1 and, for `log_n >= 1`, its `2^(log_n - 1)`-th
/// power is `p - 1`.
pub proof fn lemma_root_of_unity_order(log_n: nat)
    requires
        log_n <= 27,
    ensures
        ({
            let p = BABYBEAR_PRIME as int;
            let w = pow(440564289, pow2((27 - log_n) as nat)) % p;
            &&& pow(w, pow2(log_n)) % p == 1
            &&& log_n >= 1 ==> pow(w, pow2((log_n - 1) as nat)) % p == p - 1
        }),
{
    let p = BABYBEAR_PRIME as int;
    let e = pow2((27 - log_n) as nat);
    let w = pow(440564289, e) % p;
    let h: nat = 1006632960;
    lemma_eval_31_fifteen();
    lemma_pow_mod_spec(31, 15, p);
    lemma_eval_31_half();
    lemma_pow_mod_spec(31, h, p);
    lemma2_to64();
    // w = 31^(15 e) mod p
    lemma_pow_mod_noop(pow(31, 15), e, p);
    lemma_pow_multiplies(31, 15, e);
    if log_n >= 1 {
        let f = pow2((log_n - 1) as nat);
        lemma_pow2_adds((27 - log_n) as nat, (log_n - 1) as nat);
        assert(15 * e * f == h) by {
            lemma_mul_is_associative(15, e as int, f as int);
        }
        lemma_pow_mod_noop(pow(31, 15 * e), f, p);
        lemma_pow_multiplies(31, 15 * e, f);
        assert(pow(w, f) % p == p - 1);
        lemma_pow2_adds((log_n - 1) as nat, 1);
        lemma_pow_multiplies(w, f, 2);
        lemma_pow_minus_one(pow(w, f), 2, p);
        lemma_pow_mod_noop(pow(w, f), 2, p);
        lemma_pow_minus_one(pow(w, f) % p, 2, p);
    } else {
        assert(15 * e == 2 * h);
        lemma_pow_multiplies(31, h, 2);
        lemma_pow_minus_one(pow(31, h), 2, p);
        lemma_pow1(w);
        lemma_mod_twice(pow(440564289, e), p);
    }
}

/// A value that is not a multiple of p times its inverse `value^(p-2)` is
/// 1 mod p (Fermat's little theorem).
pub proof fn lemma_inverse_law(a: u64)
    requires
        a % BABYBEAR_PRIME != 0,
    ensures
        (a * (pow(a as int, (BABYBEAR_PRIME - 2) as nat) % (BABYBEAR_PRIME as int))) % (
        BABYBEAR_PRIME as int) == 1,
{
    let p = BABYBEAR_PRIME as int;
    lemma_babybear_fermat(a as int);
    lemma_mul_mod_noop_right(a as int, pow(a as int, (BABYBEAR_PRIME - 2) as nat), p);
    lemma_pow1(a as int);
    lemma_pow_adds(a as int, 1, (BABYBEAR_PRIME - 2) as nat);
}

/// Powers add their exponents: `a^(e1 + e2) = a^e1 * a^e2` mod p, so
/// `x.pow(e1 + e2)` is `x.pow(e1) * x.pow(e2)`.
pub proof fn lemma_pow_product(a: u64, e1: nat, e2: nat)
    ensures
        pow(a as int, e1 + e2) % (BABYBEAR_PRIME as int) == ((pow(a as int, e1) % (BABYBEAR_PRIME as int))
            * (pow(a as int, e2) % (BABYBEAR_PRIME as int))) % (BABYBEAR_PRIME as int),
{
    let p = BABYBEAR_PRIME as int;
    lemma_pow_adds(a as int, e1, e2);
    lemma_mul_mod_noop(pow(a as int, e1), pow(a as int, e2), p);
}

/// Dividing by a value that is not a multiple of p and multiplying back
/// gives the dividend mod p.
pub proof fn lemma_division_law(a: u64, b: u64)
    requires
        b % BABYBEAR_PRIME != 0,
    ensures
        ((((a * (pow(b as int, (BABYBEAR_PRIME - 2) as nat) % (BABYBEAR_PRIME as int))) % (
        BABYBEAR_PRIME as int)) * b) % (BABYBEAR_PRIME as int)) == (a as int) % (BABYBEAR_PRIME as int),
{
    let p = BABYBEAR_PRIME as int;
    let inv = pow(b as int, (BABYBEAR_PRIME - 2) as nat) % p;
    lemma_inverse_law(b);
    lemma_mul_mod_noop_left(a * inv, b as int, p);
    assert((a * inv) * b == a * (b * inv)) by (nonlinear_arith);
    lemma_mul_mod_noop_right(a as int, b * inv, p);
    lemma_mul_basics(a as int);
}

/// A canonical value plus its negation is 0.
pub proof fn lemma_negation_law(a: u64)
    requires
        a < BABYBEAR_PRIME,
    ensures
        reduce_wide_spec((a + (if a == 0 {
            0
        } else {
            BABYBEAR_PRIME - a
        })) as u64) == 0,
{
}

/// For canonical values, subtracting and adding back gives the value.
pub proof fn lemma_sub_add_law(a: u64, b: u64)
    requires
        a < BABYBEAR_PRIME,
        b < BABYBEAR_PRIME,
    ensures
        reduce_wide_spec((sub_value(a, b) + b) as u64) == a,
{
}

/// The bytes of `to_bytes` are the base-256 digits of the value, least
/// significant first: `b[0] + 2^8 b[1] + ... + 2^56 b[7]` is the value.
pub proof fn lemma_le_bytes_u64_digits(v: u64)
    ensures
        le_bytes_u64(v).len() == 8,
        ({
            let b = le_bytes_u64(v);
            b[0] + 0x100 * b[1] + 0x1_0000 * b[2] + 0x100_0000 * b[3] + 0x1_0000_0000 * b[4] + 0x100_0000_0000 * b[5]
                + 0x1_0000_0000_0000 * b[6] + 0x100_0000_0000_0000 * b[7] == v
        }),
{
    let b = le_bytes_u64(v);
    assert(v == v % 256 + 0x100 * ((v / 0x100) % 256) + 0x1_0000 * ((v / 0x1_0000) % 256) + 0x100_0000 * ((v
        / 0x100_0000) % 256) + 0x1_0000_0000 * ((v / 0x1_0000_0000) % 256) + 0x100_0000_0000 * ((v
        / 0x100_0000_0000) % 256) + 0x1_0000_0000_0000 * ((v / 0x1_0000_0000_0000) % 256) + 0x100_0000_0000_0000
        * ((v / 0x100_0000_0000_0000) % 256)) by (bit_vector);
    assert(b[0] == v % 256);
    assert(b[1] == (v / 0x100) % 256);
    assert(b[2] == (v / 0x1_0000) % 256);
    assert(b[3] == (v / 0x100_0000) % 256);
    assert(b[4] == (v / 0x1_0000_0000) % 256);
    assert(b[5] == (v / 0x100_0000_0000) % 256);
    assert(b[6] == (v / 0x1_0000_0000_0000) % 256);
    assert(b[7] == (v / 0x100_0000_0000_0000) % 256);
}

/// `from_bytes` reads the first eight bytes as a little-endian number: byte
/// `k` has weight `256^k`.
pub proof fn lemma_le_u64_digits(b: Seq<u8>)
    requires
        b.len() >= 8,
    ensures
        le_u64(b) == b[0] + 0x100 * b[1] + 0x1_0000 * b[2] + 0x100_0000 * b[3] + 0x1_0000_0000 * b[4]
            + 0x100_0000_0000 * b[5] + 0x1_0000_0000_0000 * b[6] + 0x100_0000_0000_0000 * b[7],
{
}

/// Reading back the bytes of a value gives the value: `from_bytes` undoes
/// `to_bytes` on canonical elements.
pub proof fn lemma_bytes_round_trip(v: u64)
    ensures
        le_u64(le_bytes_u64(v)) == v,
{
    lemma_le_bytes_u64_digits(v);
    lemma_le_u64_digits(le_bytes_u64(v));
}

} // verus!
