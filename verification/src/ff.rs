//! Elements of the integers modulo a number of any size: a value and the
//! modulus it is taken by.

use vstd::prelude::*;
use vstd::arithmetic::div_mod::*;
use vstd::arithmetic::mul::*;
use vstd::arithmetic::power::*;
use crate::bignum::{
    BigNat, be_bytes, big_add, big_eq, big_le, big_modpow, big_mul, big_rem, big_sub, big_to_bytes_be,
};
use crate::math::binomial::lemma_fermat_prime;
use crate::math::primes::is_prime;

verus! {

/// `b^(m-2) mod m`: the inverse of `b` when `m` is prime and `b` is not a
/// multiple of it.
pub open spec fn inverse_value(b: nat, m: nat) -> int {
    pow(b as int, (m - 2) as nat) % (m as int)
}

/// A residue `value` taken modulo `modulus`.
pub struct F {
    pub value: BigNat,
    pub modulus: BigNat,
}

impl Clone for F {
    fn clone(&self) -> (r: Self)
        ensures
            r.value@ == self.value@,
            r.modulus@ == self.modulus@,
    {
        F { value: self.value.clone(), modulus: self.modulus.clone() }
    }
}

impl F {
    /// The modulus is positive and the value lies below it.
    pub open spec fn is_canonical(self) -> bool {
        0 <= self.value@ < self.modulus@
    }

    /// `value mod modulus`.
    pub fn new(value: u64, modulus: BigNat) -> (r: F)
        requires
            modulus@ > 0,
        ensures
            r.value@ == value as nat % modulus@,
            r.modulus@ == modulus@,
    {
        let v = BigNat::from_u64(value);
        F { value: big_rem(&v, &modulus), modulus }
    }

    /// `value mod modulus`.
    pub fn from_biguint(value: BigNat, modulus: BigNat) -> (r: F)
        requires
            modulus@ > 0,
        ensures
            r.value@ == value@ % modulus@,
            r.modulus@ == modulus@,
    {
        F { value: big_rem(&value, &modulus), modulus }
    }

    /// The shortest big-endian bytes of the value, then those of the modulus.
    pub fn to_bytes(&self) -> (r: Vec<u8>)
        ensures
            r@ == be_bytes(self.value@) + be_bytes(self.modulus@),
    {
        let mut bytes = big_to_bytes_be(&self.value);
        let mut rest = big_to_bytes_be(&self.modulus);
        bytes.append(&mut rest);
        bytes
    }

    /// `value^power mod modulus`.
    pub fn pow(self, power: u32) -> (r: F)
        requires
            self.modulus@ > 0,
        ensures
            r.value@ == pow(self.value@ as int, power as nat) % (self.modulus@ as int),
            r.modulus@ == self.modulus@,
    {
        let e = BigNat::from_u64(power as u64);
        let value = big_modpow(&self.value, &e, &self.modulus);
        F { value, modulus: self.modulus }
    }

    /// Whether both the values and the moduli are equal.
    pub fn equals(&self, rhs: &F) -> (r: bool)
        ensures
            r == (self.value@ == rhs.value@ && self.modulus@ == rhs.modulus@),
    {
        big_eq(&self.value, &rhs.value) && big_eq(&self.modulus, &rhs.modulus)
    }

    /// Checks that both the values and the moduli are equal; the check
    /// fails (a panic) otherwise, so it only returns `true`.
    pub fn assert_eq(&self, rhs: &F) -> (r: bool)
        requires
            self.value@ == rhs.value@,
            self.modulus@ == rhs.modulus@,
        ensures
            r,
    {
        self.equals(rhs)
    }

    /// Zero modulo `modulus`.
    pub fn zero(modulus: BigNat) -> (r: F)
        ensures
            r.value@ == 0,
            r.modulus@ == modulus@,
    {
        F { value: BigNat::from_u64(0), modulus }
    }

    /// The sum, reduced.
    pub fn add(&self, rhs: &F) -> (r: F)
        requires
            self.modulus@ == rhs.modulus@,
            self.modulus@ > 0,
        ensures
            r.value@ == (self.value@ + rhs.value@) % self.modulus@,
            r.modulus@ == self.modulus@,
    {
        let s = big_add(&self.value, &rhs.value);
        F { value: big_rem(&s, &self.modulus), modulus: self.modulus.clone() }
    }

    /// The difference, lifted by the modulus when it would be negative, then
    /// reduced. The lift must make it nonnegative.
    pub fn sub(&self, rhs: &F) -> (r: F)
        requires
            self.modulus@ == rhs.modulus@,
            self.modulus@ > 0,
            rhs.value@ <= self.value@ + self.modulus@,
        ensures
            r.value@ == (self.value@ + self.modulus@ - rhs.value@) % (self.modulus@ as int),
            r.modulus@ == self.modulus@,
    {
        let m = &self.modulus;
        let val = if big_le(&rhs.value, &self.value) {
            big_sub(&self.value, &rhs.value)
        } else {
            let lifted = big_add(&self.value, m);
            big_sub(&lifted, &rhs.value)
        };
        proof {
            let a = self.value@ as int;
            let b = rhs.value@ as int;
            let mm = m@ as int;
            if b <= a {
                lemma_mod_add_multiples_vanish(a - b, mm);
            }
        }
        F { value: big_rem(&val, m), modulus: m.clone() }
    }

    /// The product, reduced.
    pub fn mul(&self, rhs: &F) -> (r: F)
        requires
            self.modulus@ == rhs.modulus@,
            self.modulus@ > 0,
        ensures
            r.value@ == (self.value@ * rhs.value@) % self.modulus@,
            r.modulus@ == self.modulus@,
    {
        let p = big_mul(&self.value, &rhs.value);
        F { value: big_rem(&p, &self.modulus), modulus: self.modulus.clone() }
    }

    /// The value times `rhs^(m-2) mod m` (the inverse of `rhs` when the
    /// modulus `m` is prime), reduced. The divisor must not be zero.
    pub fn div(&self, rhs: &F) -> (r: F)
        requires
            self.modulus@ == rhs.modulus@,
            self.modulus@ >= 2,
            rhs.value@ != 0,
        ensures
            r.value@ == (self.value@ * inverse_value(rhs.value@, rhs.modulus@)) % (rhs.modulus@ as int),
            r.modulus@ == rhs.modulus@,
    {
        self.times_inverse(rhs)
    }

    /// `self * rhs^(m-2) mod m`.
    fn times_inverse(&self, rhs: &F) -> (r: F)
        requires
            self.modulus@ == rhs.modulus@,
            self.modulus@ >= 2,
        ensures
            r.value@ == (self.value@ * inverse_value(rhs.value@, rhs.modulus@)) % (rhs.modulus@ as int),
            r.modulus@ == rhs.modulus@,
    {
        let two = BigNat::from_u64(2);
        let exp = big_sub(&rhs.modulus, &two);
        let inv = big_modpow(&rhs.value, &exp, &rhs.modulus);
        let p = big_mul(&self.value, &inv);
        F { value: big_rem(&p, &rhs.modulus), modulus: rhs.modulus.clone() }
    }

    /// The negation: zero stays zero, any other value `v` becomes `m - v`,
    /// which must not be negative.
    pub fn neg(&self) -> (r: F)
        requires
            self.value@ <= self.modulus@,
        ensures
            r.value@ == (if self.value@ == 0 {
                0
            } else {
                self.modulus@ - self.value@
            }),
            r.modulus@ == self.modulus@,
    {
        let zero = BigNat::from_u64(0);
        if big_eq(&self.value, &zero) {
            self.clone()
        } else {
            F { value: big_sub(&self.modulus, &self.value), modulus: self.modulus.clone() }
        }
    }
}

/// The sum, reduced; the moduli must agree.
impl<'a, 'b> core::ops::Add<&'b F> for &'a F {
    type Output = F;

    fn add(self, rhs: &'b F) -> (r: F)
        ensures
            r.value@ == (self.value@ + rhs.value@) % self.modulus@,
            r.modulus@ == self.modulus@,
    {
        F::add(self, rhs)
    }
}

/// The precondition of `add`; the result is given by its `ensures`, not
/// by `add_spec`.
impl<'a, 'b> vstd::std_specs::ops::AddSpecImpl<&'b F> for &'a F {
    open spec fn obeys_add_spec() -> bool {
        false
    }

    open spec fn add_req(self, rhs: &'b F) -> bool {
        self.modulus@ == rhs.modulus@ && self.modulus@ > 0
    }

    open spec fn add_spec(self, rhs: &'b F) -> F {
        *self
    }
}

/// The sum, reduced; the moduli must agree.
impl core::ops::Add for F {
    type Output = F;

    fn add(self, rhs: F) -> (r: F)
        ensures
            r.value@ == (self.value@ + rhs.value@) % self.modulus@,
            r.modulus@ == self.modulus@,
    {
        F::add(&self, &rhs)
    }
}

/// The precondition of `add`; the result is given by its `ensures`, not
/// by `add_spec`.
impl vstd::std_specs::ops::AddSpecImpl for F {
    open spec fn obeys_add_spec() -> bool {
        false
    }

    open spec fn add_req(self, rhs: F) -> bool {
        self.modulus@ == rhs.modulus@ && self.modulus@ > 0
    }

    open spec fn add_spec(self, rhs: F) -> F {
        self
    }
}

/// The difference, lifted by the modulus when it would be negative, reduced.
impl<'a, 'b> core::ops::Sub<&'b F> for &'a F {
    type Output = F;

    fn sub(self, rhs: &'b F) -> (r: F)
        ensures
            r.value@ == (self.value@ + self.modulus@ - rhs.value@) % (self.modulus@ as int),
            r.modulus@ == self.modulus@,
    {
        F::sub(self, rhs)
    }
}

/// The precondition of `sub`; the result is given by its `ensures`, not
/// by `sub_spec`.
impl<'a, 'b> vstd::std_specs::ops::SubSpecImpl<&'b F> for &'a F {
    open spec fn obeys_sub_spec() -> bool {
        false
    }

    open spec fn sub_req(self, rhs: &'b F) -> bool {
        self.modulus@ == rhs.modulus@ && self.modulus@ > 0 && rhs.value@ <= self.value@ + self.modulus@
    }

    open spec fn sub_spec(self, rhs: &'b F) -> F {
        *self
    }
}

/// The difference, lifted by the modulus when it would be negative, reduced.
impl core::ops::Sub for F {
    type Output = F;

    fn sub(self, rhs: F) -> (r: F)
        ensures
            r.value@ == (self.value@ + self.modulus@ - rhs.value@) % (self.modulus@ as int),
            r.modulus@ == self.modulus@,
    {
        F::sub(&self, &rhs)
    }
}

/// The precondition of `sub`; the result is given by its `ensures`, not
/// by `sub_spec`.
impl vstd::std_specs::ops::SubSpecImpl for F {
    open spec fn obeys_sub_spec() -> bool {
        false
    }

    open spec fn sub_req(self, rhs: F) -> bool {
        self.modulus@ == rhs.modulus@ && self.modulus@ > 0 && rhs.value@ <= self.value@ + self.modulus@
    }

    open spec fn sub_spec(self, rhs: F) -> F {
        self
    }
}

/// The product, reduced; the moduli must agree.
impl<'a, 'b> core::ops::Mul<&'b F> for &'a F {
    type Output = F;

    fn mul(self, rhs: &'b F) -> (r: F)
        ensures
            r.value@ == (self.value@ * rhs.value@) % self.modulus@,
            r.modulus@ == self.modulus@,
    {
        F::mul(self, rhs)
    }
}

/// The precondition of `mul`; the result is given by its `ensures`, not
/// by `mul_spec`.
impl<'a, 'b> vstd::std_specs::ops::MulSpecImpl<&'b F> for &'a F {
    open spec fn obeys_mul_spec() -> bool {
        false
    }

    open spec fn mul_req(self, rhs: &'b F) -> bool {
        self.modulus@ == rhs.modulus@ && self.modulus@ > 0
    }

    open spec fn mul_spec(self, rhs: &'b F) -> F {
        *self
    }
}

/// The product, reduced; the moduli must agree.
impl core::ops::Mul for F {
    type Output = F;

    fn mul(self, rhs: F) -> (r: F)
        ensures
            r.value@ == (self.value@ * rhs.value@) % self.modulus@,
            r.modulus@ == self.modulus@,
    {
        F::mul(&self, &rhs)
    }
}

/// The precondition of `mul`; the result is given by its `ensures`, not
/// by `mul_spec`.
impl vstd::std_specs::ops::MulSpecImpl for F {
    open spec fn obeys_mul_spec() -> bool {
        false
    }

    open spec fn mul_req(self, rhs: F) -> bool {
        self.modulus@ == rhs.modulus@ && self.modulus@ > 0
    }

    open spec fn mul_spec(self, rhs: F) -> F {
        self
    }
}

/// The value times `rhs^(m-2)` (the inverse of `rhs` for a prime modulus), reduced;
/// the divisor must not be zero.
impl<'a, 'b> core::ops::Div<&'b F> for &'a F {
    type Output = F;

    fn div(self, rhs: &'b F) -> (r: F)
        ensures
            r.value@ == (self.value@ * inverse_value(rhs.value@, rhs.modulus@)) % (rhs.modulus@ as int),
            r.modulus@ == rhs.modulus@,
    {
        F::div(self, rhs)
    }
}

/// The precondition of `div`; the result is given by its `ensures`, not
/// by `div_spec`.
impl<'a, 'b> vstd::std_specs::ops::DivSpecImpl<&'b F> for &'a F {
    open spec fn obeys_div_spec() -> bool {
        false
    }

    open spec fn div_req(self, rhs: &'b F) -> bool {
        self.modulus@ == rhs.modulus@ && self.modulus@ >= 2 && rhs.value@ != 0
    }

    open spec fn div_spec(self, rhs: &'b F) -> F {
        *self
    }
}

/// The value times `rhs^(m-2)` (the inverse of `rhs` for a prime modulus), reduced;
/// the divisor must not be zero.
impl core::ops::Div for F {
    type Output = F;

    fn div(self, rhs: F) -> (r: F)
        ensures
            r.value@ == (self.value@ * inverse_value(rhs.value@, rhs.modulus@)) % (rhs.modulus@ as int),
            r.modulus@ == rhs.modulus@,
    {
        F::div(&self, &rhs)
    }
}

/// The precondition of `div`; the result is given by its `ensures`, not
/// by `div_spec`.
impl vstd::std_specs::ops::DivSpecImpl for F {
    open spec fn obeys_div_spec() -> bool {
        false
    }

    open spec fn div_req(self, rhs: F) -> bool {
        self.modulus@ == rhs.modulus@ && self.modulus@ >= 2 && rhs.value@ != 0
    }

    open spec fn div_spec(self, rhs: F) -> F {
        self
    }
}

/// The negation: zero stays zero, any other value `v` becomes `m - v`.
impl<'a> core::ops::Neg for &'a F {
    type Output = F;

    fn neg(self) -> (r: F)
        ensures
            r.value@ == (if self.value@ == 0 {
                0
            } else {
                self.modulus@ - self.value@
            }),
            r.modulus@ == self.modulus@,
    {
        F::neg(self)
    }
}

/// The precondition of `neg`; the result is given by its `ensures`, not by
/// `neg_spec`.
impl<'a> vstd::std_specs::ops::NegSpecImpl for &'a F {
    open spec fn obeys_neg_spec() -> bool {
        false
    }

    open spec fn neg_req(self) -> bool {
        self.value@ <= self.modulus@
    }

    open spec fn neg_spec(self) -> F {
        *self
    }
}

/// The negation: zero stays zero, any other value `v` becomes `m - v`.
impl core::ops::Neg for F {
    type Output = F;

    fn neg(self) -> (r: F)
        ensures
            r.value@ == (if self.value@ == 0 {
                0
            } else {
                self.modulus@ - self.value@
            }),
            r.modulus@ == self.modulus@,
    {
        F::neg(&self)
    }
}

/// The precondition of `neg`; the result is given by its `ensures`, not by
/// `neg_spec`.
impl vstd::std_specs::ops::NegSpecImpl for F {
    open spec fn obeys_neg_spec() -> bool {
        false
    }

    open spec fn neg_req(self) -> bool {
        self.value@ <= self.modulus@
    }

    open spec fn neg_spec(self) -> F {
        self
    }
}

/// `self = self + rhs`.
impl core::ops::AddAssign for F {
    fn add_assign(&mut self, rhs: F)
        requires
            old(self).modulus@ == rhs.modulus@,
            old(self).modulus@ > 0,
        ensures
            final(self).value@ == (old(self).value@ + rhs.value@) % old(self).modulus@,
            final(self).modulus@ == old(self).modulus@,
    {
        let s = big_add(&self.value, &rhs.value);
        self.value = big_rem(&s, &self.modulus);
    }
}

/// `self = self * rhs`.
impl core::ops::MulAssign for F {
    fn mul_assign(&mut self, rhs: F)
        requires
            old(self).modulus@ == rhs.modulus@,
            old(self).modulus@ > 0,
        ensures
            final(self).value@ == (old(self).value@ * rhs.value@) % old(self).modulus@,
            final(self).modulus@ == old(self).modulus@,
    {
        let p = big_mul(&self.value, &rhs.value);
        self.value = big_rem(&p, &self.modulus);
    }
}

/// `self = self / rhs`, that is `self * rhs^(m-2)`; a zero divisor is not
/// refused.
impl core::ops::DivAssign for F {
    fn div_assign(&mut self, rhs: F)
        requires
            old(self).modulus@ == rhs.modulus@,
            old(self).modulus@ >= 2,
        ensures
            final(self).value@ == (old(self).value@ * inverse_value(rhs.value@, rhs.modulus@)) % (
            rhs.modulus@ as int),
            final(self).modulus@ == old(self).modulus@,
    {
        let r = self.times_inverse(&rhs);
        self.value = r.value;
    }
}

/// Adding a canonical element to its negation gives zero.
pub proof fn lemma_add_neg(a: nat, m: nat)
    requires
        a < m,
    ensures
        (a + (if a == 0 {
            0
        } else {
            m - a
        }) as int) % (m as int) == 0,
{
    if a == 0 {
        lemma_small_mod(0, m);
    } else {
        lemma_mod_self_0(m as int);
    }
}

/// Subtracting and adding back gives the value, for canonical elements.
pub proof fn lemma_sub_add(a: nat, b: nat, m: nat)
    requires
        a < m,
        b < m,
    ensures
        (((a + m - b) % (m as int)) + b) % (m as int) == a,
{
    let mm = m as int;
    lemma_add_mod_noop((a + m - b) as int, b as int, mm);
    lemma_mod_twice(b as int, mm);
    lemma_small_mod(b, m);
    lemma_add_mod_noop((a + m - b) as int, b as int, mm);
    lemma_mod_add_multiples_vanish(a as int, mm);
    lemma_small_mod(a, m);
}

/// Dividing by an element that is not zero mod a prime `m` and multiplying
/// back gives the dividend mod `m`.
pub proof fn lemma_div_mul(a: nat, b: nat, m: nat)
    requires
        is_prime(m as int),
        b % m != 0,
    ensures
        ((a * inverse_value(b, m)) % (m as int) * b) % (m as int) == (a as int) % (m as int),
{
    let p = m as int;
    let inv = inverse_value(b, m);
    lemma_fermat_prime(p, b as int);
    lemma_pow1(b as int);
    lemma_pow_adds(b as int, 1, (m - 2) as nat);
    lemma_mul_mod_noop_right(b as int, pow(b as int, (m - 2) as nat), p);
    assert((b * inv) % p == 1);
    lemma_mul_mod_noop_left(a * inv, b as int, p);
    assert((a * inv) * b == a * (b * inv)) by (nonlinear_arith);
    lemma_mul_mod_noop_right(a as int, b * inv, p);
    lemma_mul_basics(a as int);
}

} // verus!
