//! Polynomials with coefficients in `F` (lowest degree first, no trailing
//! zero coefficient): evaluation, sums, products, scaling and Lagrange
//! interpolation.

use vstd::prelude::*;
use vstd::arithmetic::div_mod::*;
use vstd::arithmetic::mul::*;
use crate::bignum::BigNat;
use crate::ff::{inverse_value, F};
use vstd::arithmetic::power::*;
use crate::math::sums::{
    lemma_sum_drop_first, lemma_sum_ext, lemma_sum_mod, lemma_sum_plus, lemma_sum_scale, lemma_sum_single,
    lemma_sum_swap, lemma_sum_zero, sum,
};
use crate::ntt::residues::{fvals, over_modulus};
use crate::math::primes::{is_prime, lemma_euclid};
use crate::math::binomial::lemma_fermat_prime;

verus! {

/// `s` without its trailing zeros.
pub open spec fn trim(s: Seq<int>) -> Seq<int>
    decreases s.len(),
{
    if s.len() > 0 && s.last() == 0 {
        trim(s.drop_last())
    } else {
        s
    }
}

/// Coefficient `k` of `s`, zero past its end.
pub open spec fn coeff_at(s: Seq<int>, k: int) -> int {
    if 0 <= k < s.len() {
        s[k]
    } else {
        0
    }
}

/// The value at `x` of the polynomial with coefficients `c`:
/// `c[0] + c[1] x + c[2] x^2 + ...`.
pub open spec fn poly_eval(c: Seq<int>, x: int) -> int
    decreases c.len(),
{
    if c.len() == 0 {
        0
    } else {
        c[0] + x * poly_eval(c.drop_first(), x)
    }
}

/// The sum of two polynomials, coefficients reduced mod `m`, trailing zeros
/// removed.
pub open spec fn poly_add(a: Seq<int>, b: Seq<int>, m: int) -> Seq<int> {
    let len = if a.len() >= b.len() {
        a.len()
    } else {
        b.len()
    };
    trim(Seq::new(len, |k: int| (coeff_at(a, k) + coeff_at(b, k)) % m))
}

/// The terms `a[t] * b[k - t]` of coefficient `k` of a product.
pub open spec fn conv_terms(a: Seq<int>, b: Seq<int>, k: int) -> spec_fn(int) -> int {
    |t: int| a[t] * coeff_at(b, k - t)
}

/// The product of two polynomials, coefficients reduced mod `m`, trailing
/// zeros removed; empty when either is.
pub open spec fn poly_mul(a: Seq<int>, b: Seq<int>, m: int) -> Seq<int> {
    if a.len() == 0 || b.len() == 0 {
        Seq::empty()
    } else {
        trim(Seq::new((a.len() + b.len() - 1) as nat, |k: int| sum(a.len(), conv_terms(a, b, k)) % m))
    }
}

/// Every coefficient times `c`, reduced mod `m`, trailing zeros removed.
pub open spec fn poly_scale(a: Seq<int>, c: int, m: int) -> Seq<int> {
    trim(a.map_values(|x: int| (x * c) % m))
}

/// A polynomial: its coefficients, lowest degree first, and the modulus of
/// their field.
pub struct Polynomial {
    pub coeffs: Vec<F>,
    pub modulus: BigNat,
}

impl View for Polynomial {
    type V = Seq<int>;

    open spec fn view(&self) -> Seq<int> {
        fvals(self.coeffs@)
    }
}

/// Trimming keeps a prefix, and trims nothing more once the last entry is not 0.
proof fn lemma_trim_prefix(s: Seq<int>)
    ensures
        trim(s).len() <= s.len(),
        trim(s) == s.subrange(0, trim(s).len() as int),
        trim(s).len() == 0 || trim(s).last() != 0,
    decreases s.len(),
{
    if s.len() > 0 && s.last() == 0 {
        lemma_trim_prefix(s.drop_last());
        assert(s.drop_last().subrange(0, trim(s).len() as int) =~= s.subrange(0, trim(s).len() as int));
    } else {
        assert(s.subrange(0, s.len() as int) =~= s);
    }
}

impl Polynomial {
    /// The polynomial with no coefficient.
    pub fn zero(modulus: BigNat) -> (r: Self)
        ensures
            r@ == Seq::<int>::empty(),
            r.coeffs.len() == 0,
            r.modulus@ == modulus@,
    {
        let r = Polynomial { coeffs: Vec::new(), modulus };
        assert(r@ =~= Seq::<int>::empty());
        r
    }

    /// The index of the last coefficient (0 when there is none).
    pub fn degree(&self) -> (d: usize)
        ensures
            d == (if self.coeffs.len() == 0 {
                0
            } else {
                self.coeffs.len() - 1
            }),
    {
        if self.coeffs.len() == 0 {
            0
        } else {
            self.coeffs.len() - 1
        }
    }

    /// The polynomial with `coeffs`, trailing zero coefficients removed.
    pub fn new(coeffs: Vec<F>, modulus: BigNat) -> (r: Self)
        ensures
            r@ == trim(fvals(coeffs@)),
            r.coeffs.len() <= coeffs.len(),
            r.coeffs@ == coeffs@.subrange(0, r.coeffs.len() as int),
            r.modulus@ == modulus@,
    {
        let ghost c0 = coeffs@;
        let mut coeffs = coeffs;
        loop
            invariant_except_break
                coeffs.len() <= c0.len(),
                coeffs@ == c0.subrange(0, coeffs.len() as int),
                trim(fvals(coeffs@)) == trim(fvals(c0)),
            ensures
                coeffs.len() <= c0.len(),
                coeffs@ == c0.subrange(0, coeffs.len() as int),
                fvals(coeffs@) == trim(fvals(c0)),
            decreases coeffs.len(),
        {
            if coeffs.len() == 0 {
                break;
            }
            let last = coeffs.len() - 1;
            let z = F::zero(coeffs[last].modulus.clone());
            if !coeffs[last].equals(&z) {
                break;
            }
            let ghost before = coeffs@;
            coeffs.pop();
            proof {
                assert(fvals(before).drop_last() =~= fvals(coeffs@));
                assert(coeffs@ =~= c0.subrange(0, coeffs.len() as int));
            }
        }
        Polynomial { coeffs, modulus }
    }

    /// The value at `x`, by Horner's rule from the last coefficient: 0 for no
    /// coefficient, the coefficient itself for one, otherwise reduced.
    pub fn evaluate(&self, x: &F) -> (r: F)
        requires
            self.coeffs.len() >= 2 ==> x.modulus@ > 0,
            over_modulus(self.coeffs@, x.modulus@),
        ensures
            r.modulus@ == x.modulus@,
            self.coeffs.len() == 0 ==> r.value@ == 0,
            self.coeffs.len() == 1 ==> r.value@ == self@[0],
            self.coeffs.len() >= 2 ==> r.value@ == poly_eval(self@, x.value@ as int) % (
            x.modulus@ as int),
    {
        let n = self.coeffs.len();
        if n == 0 {
            return F::zero(x.modulus.clone());
        }
        let ghost c = self@;
        let ghost m = x.modulus@ as int;
        let ghost xv = x.value@ as int;
        let mut acc = self.coeffs[n - 1].clone();
        let mut k = n - 1;
        proof {
            let t = c.subrange((n - 1) as int, n as int);
            assert(t.drop_first() =~= Seq::<int>::empty());
            assert(poly_eval(t, xv) == c[n - 1] + xv * poly_eval(t.drop_first(), xv));
        }
        while k > 0
            invariant
                n == self.coeffs.len(),
                c == self@,
                m == x.modulus@,
                xv == x.value@,
                n >= 2 ==> m > 0,
                over_modulus(self.coeffs@, x.modulus@),
                0 <= k <= n - 1,
                acc.modulus@ == x.modulus@,
                k == n - 1 ==> acc.value@ == c[n - 1],
                k < n - 1 ==> acc.value@ == poly_eval(c.subrange(k as int, n as int), xv) % m,
                k == n - 1 ==> acc.value@ == poly_eval(c.subrange(k as int, n as int), xv),
            decreases k,
        {
            let ghost prev = acc.value@ as int;
            let ghost tail = poly_eval(c.subrange(k as int, n as int), xv);
            let t = acc.mul(x);
            acc = t.add(&self.coeffs[k - 1]);
            proof {
                let s = c.subrange(k - 1, n as int);
                assert(s.drop_first() =~= c.subrange(k as int, n as int));
                assert(s[0] == c[k - 1]);
                if k < n - 1 {
                    lemma_mod_twice(tail, m);
                }
                assert(prev % m == tail % m);
                lemma_mul_mod_noop_left(prev, xv, m);
                lemma_mul_mod_noop_left(tail, xv, m);
                lemma_mul_is_commutative(tail, xv);
                lemma_add_mod_noop(c[k - 1], (prev * xv) % m, m);
                lemma_add_mod_noop(c[k - 1], tail * xv, m);
                lemma_mod_twice(prev * xv, m);
                lemma_mod_twice(tail * xv, m);
            }
            k -= 1;
        }
        assert(c.subrange(0, n as int) =~= c);
        acc
    }

    /// Every coefficient times `scalar`, trailing zeros removed.
    pub fn scale(&self, scalar: F) -> (r: Self)
        requires
            scalar.modulus@ > 0,
            over_modulus(self.coeffs@, scalar.modulus@),
        ensures
            r@ == poly_scale(self@, scalar.value@ as int, scalar.modulus@ as int),
            over_modulus(r.coeffs@, scalar.modulus@),
            r.modulus@ == self.modulus@,
    {
        let ghost m = scalar.modulus@ as int;
        let mut coeffs: Vec<F> = Vec::new();
        let mut i: usize = 0;
        while i < self.coeffs.len()
            invariant
                m == scalar.modulus@,
                m > 0,
                over_modulus(self.coeffs@, scalar.modulus@),
                i <= self.coeffs.len(),
                coeffs.len() == i,
                over_modulus(coeffs@, scalar.modulus@),
                forall|k: int|
                    0 <= k < i ==> (#[trigger] coeffs@[k]).value@ == (self@[k] * scalar.value@) % m,
            decreases self.coeffs.len() - i,
        {
            let c = self.coeffs[i].mul(&scalar);
            coeffs.push(c);
            i += 1;
        }
        assert(fvals(coeffs@) =~= self@.map_values(|x: int| (x * scalar.value@) % m));
        let r = Polynomial::new(coeffs, self.modulus.clone());
        assert(over_modulus(r.coeffs@, scalar.modulus@)) by {
            assert forall|k: int| 0 <= k < r.coeffs.len() implies (#[trigger] r.coeffs@[k]).modulus@
                == scalar.modulus@ by {
                assert(r.coeffs@[k] == coeffs@[k]);
            }
        }
        r
    }

    /// The polynomial with `coeffs` (at least one), taken modulo the modulus
    /// of the first, trailing zeros removed.
    pub fn from_coeffs(coeffs: Vec<F>) -> (r: Self)
        requires
            coeffs.len() >= 1,
        ensures
            r@ == trim(fvals(coeffs@)),
            r.coeffs.len() <= coeffs.len(),
            r.coeffs@ == coeffs@.subrange(0, r.coeffs.len() as int),
            r.modulus@ == coeffs@[0].modulus@,
    {
        let modulus = coeffs[0].modulus.clone();
        Polynomial::new(coeffs, modulus)
    }
}

impl Polynomial {
    /// `count` zero elements modulo `modulus`.
    fn zeros(count: usize, modulus: &BigNat) -> (r: Vec<F>)
        ensures
            r.len() == count,
            over_modulus(r@, modulus@),
            forall|k: int| 0 <= k < count ==> (#[trigger] r@[k]).value@ == 0,
    {
        let mut r: Vec<F> = Vec::new();
        let mut i: usize = 0;
        while i < count
            invariant
                i <= count,
                r.len() == i,
                over_modulus(r@, modulus@),
                forall|k: int| 0 <= k < i ==> (#[trigger] r@[k]).value@ == 0,
            decreases count - i,
        {
            r.push(F::zero(modulus.clone()));
            i += 1;
        }
        r
    }

    /// The sum: coefficients added position by position, reduced, trailing
    /// zeros removed.
    pub fn add(self, rhs: Polynomial) -> (r: Polynomial)
        requires
            self.modulus@ > 0,
            over_modulus(self.coeffs@, self.modulus@),
            over_modulus(rhs.coeffs@, self.modulus@),
        ensures
            r@ == poly_add(self@, rhs@, self.modulus@ as int),
            over_modulus(r.coeffs@, self.modulus@),
            r.modulus@ == self.modulus@,
    {
        let ghost m = self.modulus@ as int;
        let ghost a = self@;
        let ghost b = rhs@;
        let la = self.coeffs.len();
        let lb = rhs.coeffs.len();
        let max_len = if la >= lb {
            la
        } else {
            lb
        };
        let mut result = Polynomial::zeros(max_len, &self.modulus);
        let mut i: usize = 0;
        while i < la
            invariant
                m == self.modulus@,
                m > 0,
                a == self@,
                la == self.coeffs.len(),
                la <= max_len,
                i <= la,
                result.len() == max_len,
                over_modulus(self.coeffs@, self.modulus@),
                over_modulus(result@, self.modulus@),
                forall|k: int| 0 <= k < i ==> (#[trigger] result@[k]).value@ == (0 + a[k]) % m,
                forall|k: int| i <= k < max_len ==> (#[trigger] result@[k]).value@ == 0,
            decreases la - i,
        {
            let t = result[i].add(&self.coeffs[i]);
            result.set(i, t);
            i += 1;
        }
        let mut j: usize = 0;
        while j < lb
            invariant
                m == self.modulus@,
                m > 0,
                a == self@,
                b == rhs@,
                la == self.coeffs.len(),
                lb == rhs.coeffs.len(),
                lb <= max_len,
                j <= lb,
                result.len() == max_len,
                over_modulus(rhs.coeffs@, self.modulus@),
                over_modulus(result@, self.modulus@),
                forall|k: int|
                    0 <= k < j ==> (#[trigger] result@[k]).value@ == ((if k < la {
                        (0 + a[k]) % m
                    } else {
                        0
                    }) + b[k]) % m,
                forall|k: int|
                    j <= k < max_len ==> (#[trigger] result@[k]).value@ == (if k < la {
                        (0 + a[k]) % m
                    } else {
                        0
                    }),
            decreases lb - j,
        {
            let t = result[j].add(&rhs.coeffs[j]);
            result.set(j, t);
            j += 1;
        }
        proof {
            assert forall|k: int| 0 <= k < max_len implies (#[trigger] fvals(result@)[k]) == (coeff_at(a, k)
                + coeff_at(b, k)) % m by {
                if k < la && k < lb {
                    lemma_add_mod_noop(a[k], b[k], m);
                    lemma_add_mod_noop(a[k] % m, b[k], m);
                    lemma_mod_twice(a[k], m);
                }
            }
            assert(fvals(result@) =~= Seq::new(max_len as nat, |k: int| (coeff_at(a, k) + coeff_at(b, k)) % m));
        }
        let modulus = self.modulus.clone();
        let r = Polynomial::new(result, modulus);
        proof {
            assert forall|k: int| 0 <= k < r.coeffs.len() implies (#[trigger] r.coeffs@[k]).modulus@
                == self.modulus@ by {
                assert(r.coeffs@[k] == result@[k]);
            }
        }
        r
    }

    /// The product: coefficient `k` is the sum of `a[i] * b[j]` over
    /// `i + j == k`, reduced, trailing zeros removed; the product with a
    /// polynomial without coefficients has none.
    pub fn mul(self, rhs: Polynomial) -> (r: Polynomial)
        requires
            self.modulus@ > 0,
            self.coeffs.len() + rhs.coeffs.len() <= usize::MAX,
            over_modulus(self.coeffs@, self.modulus@),
            over_modulus(rhs.coeffs@, self.modulus@),
        ensures
            r@ == poly_mul(self@, rhs@, self.modulus@ as int),
            over_modulus(r.coeffs@, self.modulus@),
            r.modulus@ == self.modulus@,
    {
        let ghost m = self.modulus@ as int;
        let ghost a = self@;
        let ghost b = rhs@;
        let la = self.coeffs.len();
        let lb = rhs.coeffs.len();
        if la == 0 || lb == 0 {
            return Polynomial::zero(self.modulus.clone());
        }
        let total = self.degree() + rhs.degree() + 1;
        let mut result = Polynomial::zeros(total, &self.modulus);
        proof {
            assert forall|k: int| 0 <= k < total implies (#[trigger] result@[k]).value@ == sum(0, conv_terms(a, b, k))
                % m by {
                lemma_small_mod(0, m as nat);
            }
        }
        let mut i: usize = 0;
        while i < la
            invariant
                m == self.modulus@,
                m > 0,
                a == self@,
                b == rhs@,
                la == self.coeffs.len(),
                lb == rhs.coeffs.len(),
                la >= 1,
                lb >= 1,
                total == la + lb - 1,
                i <= la,
                result.len() == total,
                over_modulus(self.coeffs@, self.modulus@),
                over_modulus(rhs.coeffs@, self.modulus@),
                over_modulus(result@, self.modulus@),
                forall|k: int|
                    0 <= k < total ==> (#[trigger] result@[k]).value@ == sum(i as nat, conv_terms(a, b, k))
                        % m,
            decreases la - i,
        {
            let mut j: usize = 0;
            while j < lb
                invariant
                    m == self.modulus@,
                    m > 0,
                    a == self@,
                    b == rhs@,
                    la == self.coeffs.len(),
                    lb == rhs.coeffs.len(),
                    total == la + lb - 1,
                    i < la,
                    j <= lb,
                    result.len() == total,
                    over_modulus(self.coeffs@, self.modulus@),
                    over_modulus(rhs.coeffs@, self.modulus@),
                    over_modulus(result@, self.modulus@),
                    forall|k: int|
                        0 <= k < total ==> (#[trigger] result@[k]).value@ == (sum(i as nat, conv_terms(a, b, k))
                            + (if i <= k < i + j {
                            a[i as int] * b[k - i]
                        } else {
                            0
                        })) % m,
                decreases lb - j,
            {
                let ghost k0 = (i + j) as int;
                let p = self.coeffs[i].mul(&rhs.coeffs[j]);
                let t = result[i + j].add(&p);
                proof {
                    let s = sum(i as nat, conv_terms(a, b, k0));
                    lemma_add_mod_noop(s, a[i as int] * b[j as int], m);
                    lemma_add_mod_noop(s % m, a[i as int] * b[j as int], m);
                    lemma_mod_twice(s, m);
                    lemma_mod_twice(a[i as int] * b[j as int], m);
                    lemma_add_mod_noop(s % m, (a[i as int] * b[j as int]) % m, m);
                    assert(k0 - i == j);
                }
                result.set(i + j, t);
                j += 1;
            }
            proof {
                assert forall|k: int| 0 <= k < total implies (#[trigger] result@[k]).value@ == sum(
                    (i + 1) as nat,
                    conv_terms(a, b, k),
                ) % m by {
                    assert(conv_terms(a, b, k)(i as int) == a[i as int] * coeff_at(b, k - i));
                }
            }
            i += 1;
        }
        proof {
            assert(fvals(result@) =~= Seq::new((la + lb - 1) as nat, |k: int| sum(la as nat, conv_terms(a, b, k)) % m));
        }
        let modulus = self.modulus.clone();
        let r = Polynomial::new(result, modulus);
        proof {
            assert forall|k: int| 0 <= k < r.coeffs.len() implies (#[trigger] r.coeffs@[k]).modulus@
                == self.modulus@ by {
                assert(r.coeffs@[k] == result@[k]);
            }
        }
        r
    }
}

/// The linear factor `X - x`: coefficients `[(0 + m - x) mod m, 1]`.
pub open spec fn linear_factor(x: int, m: int) -> Seq<int> {
    trim(seq![(0 + m - x) % m, 1])
}

/// The product of the factors `X - xs[j]` for `j < upto`, `j != i`,
/// starting from the constant 1.
pub open spec fn lagrange_basis(xs: Seq<int>, i: int, upto: nat, m: int) -> Seq<int>
    decreases upto,
{
    if upto == 0 {
        trim(seq![1])
    } else {
        let prev = lagrange_basis(xs, i, (upto - 1) as nat, m);
        if upto - 1 == i {
            prev
        } else {
            poly_mul(prev, linear_factor(xs[upto - 1], m), m)
        }
    }
}

/// The product of the differences `xs[i] - xs[j]` (each lifted and reduced
/// mod `m`) for `j < upto`, `j != i`, starting from 1, reduced after each
/// step.
pub open spec fn lagrange_denominator(xs: Seq<int>, i: int, upto: nat, m: int) -> int
    decreases upto,
{
    if upto == 0 {
        1
    } else {
        let prev = lagrange_denominator(xs, i, (upto - 1) as nat, m);
        if upto - 1 == i {
            prev
        } else {
            (prev * ((xs[i] + m - xs[upto - 1]) % m)) % m
        }
    }
}

/// Term `i` of the Lagrange sum: the basis polynomial of `xs[i]` scaled by
/// `ys[i]` divided by its denominator.
pub open spec fn lagrange_term(xs: Seq<int>, ys: Seq<int>, i: int, m: int) -> Seq<int> {
    let d = lagrange_denominator(xs, i, xs.len(), m);
    let c = (ys[i] * inverse_value(d as nat, m as nat)) % m;
    poly_scale(lagrange_basis(xs, i, xs.len(), m), c, m)
}

/// The sum of the first `upto` Lagrange terms.
pub open spec fn lagrange_sum(xs: Seq<int>, ys: Seq<int>, upto: nat, m: int) -> Seq<int>
    decreases upto,
{
    if upto == 0 {
        Seq::empty()
    } else {
        poly_add(lagrange_sum(xs, ys, (upto - 1) as nat, m), lagrange_term(xs, ys, upto - 1, m), m)
    }
}

/// The length of a product is at most the sum of the lengths less one.
proof fn lemma_poly_mul_len(a: Seq<int>, b: Seq<int>, m: int)
    requires
        a.len() >= 1,
        b.len() >= 1,
    ensures
        poly_mul(a, b, m).len() <= a.len() + b.len() - 1,
{
    lemma_trim_prefix(Seq::new((a.len() + b.len() - 1) as nat, |k: int| sum(a.len(), conv_terms(a, b, k)) % m));
}

/// A basis polynomial over the first `upto` points has at most `upto + 1`
/// coefficients, and at most `upto` when its own point is among them.
proof fn lemma_basis_len(xs: Seq<int>, i: int, upto: nat, m: int)
    ensures
        lagrange_basis(xs, i, upto, m).len() <= upto + 1,
        0 <= i < upto ==> lagrange_basis(xs, i, upto, m).len() <= upto,
    decreases upto,
{
    if upto == 0 {
        lemma_trim_prefix(seq![1int]);
    } else {
        lemma_basis_len(xs, i, (upto - 1) as nat, m);
        let prev = lagrange_basis(xs, i, (upto - 1) as nat, m);
        if upto - 1 != i {
            let lf = linear_factor(xs[upto - 1], m);
            lemma_trim_prefix(seq![(0 + m - xs[upto - 1]) % m, 1]);
            if prev.len() >= 1 && lf.len() >= 1 {
                lemma_poly_mul_len(prev, lf, m);
            }
        }
    }
}

/// The first `upto` Lagrange terms sum to at most `xs.len()` coefficients.
proof fn lemma_lagrange_sum_len(xs: Seq<int>, ys: Seq<int>, upto: nat, m: int)
    requires
        upto <= xs.len(),
    ensures
        lagrange_sum(xs, ys, upto, m).len() <= xs.len(),
    decreases upto,
{
    if upto > 0 {
        lemma_lagrange_sum_len(xs, ys, (upto - 1) as nat, m);
        let i = upto - 1;
        let d = lagrange_denominator(xs, i, xs.len(), m);
        let c = (ys[i] * inverse_value(d as nat, m as nat)) % m;
        let b = lagrange_basis(xs, i, xs.len(), m);
        lemma_basis_len(xs, i, xs.len(), m);
        lemma_trim_prefix(b.map_values(|x: int| (x * c) % m));
        let a = lagrange_sum(xs, ys, (upto - 1) as nat, m);
        let t = lagrange_term(xs, ys, i, m);
        let len = if a.len() >= t.len() {
            a.len()
        } else {
            t.len()
        };
        lemma_trim_prefix(Seq::new(len, |k: int| (coeff_at(a, k) + coeff_at(t, k)) % m));
    }
}

/// The sum, as `add` computes it.
impl core::ops::Add for Polynomial {
    type Output = Polynomial;

    fn add(self, rhs: Polynomial) -> (r: Polynomial)
        ensures
            r@ == poly_add(self@, rhs@, self.modulus@ as int),
            over_modulus(r.coeffs@, self.modulus@),
            r.modulus@ == self.modulus@,
    {
        Polynomial::add(self, rhs)
    }
}

/// The precondition of `add`; the result is given by its `ensures`, not
/// by `add_spec`.
impl vstd::std_specs::ops::AddSpecImpl for Polynomial {
    open spec fn obeys_add_spec() -> bool {
        false
    }

    open spec fn add_req(self, rhs: Polynomial) -> bool {
        &&& self.modulus@ > 0
        &&& over_modulus(self.coeffs@, self.modulus@)
        &&& over_modulus(rhs.coeffs@, self.modulus@)
    }

    open spec fn add_spec(self, rhs: Polynomial) -> Polynomial {
        self
    }
}

/// The product, as `mul` computes it.
impl core::ops::Mul for Polynomial {
    type Output = Polynomial;

    fn mul(self, rhs: Polynomial) -> (r: Polynomial)
        ensures
            r@ == poly_mul(self@, rhs@, self.modulus@ as int),
            over_modulus(r.coeffs@, self.modulus@),
            r.modulus@ == self.modulus@,
    {
        Polynomial::mul(self, rhs)
    }
}

/// The precondition of `mul`; the result is given by its `ensures`, not
/// by `mul_spec`.
impl vstd::std_specs::ops::MulSpecImpl for Polynomial {
    open spec fn obeys_mul_spec() -> bool {
        false
    }

    open spec fn mul_req(self, rhs: Polynomial) -> bool {
        &&& self.modulus@ > 0
        &&& self.coeffs.len() + rhs.coeffs.len() <= usize::MAX
        &&& over_modulus(self.coeffs@, self.modulus@)
        &&& over_modulus(rhs.coeffs@, self.modulus@)
    }

    open spec fn mul_spec(self, rhs: Polynomial) -> Polynomial {
        self
    }
}

impl Polynomial {
    /// The element 1 modulo `modulus`.
    fn one(modulus: &BigNat) -> (r: F)
        ensures
            r.value@ == 1,
            r.modulus@ == modulus@,
    {
        F { value: BigNat::from_u64(1), modulus: modulus.clone() }
    }

    /// The Lagrange interpolation polynomial through the points
    /// `(xs[i], ys[i])`: the sum over `i` of `ys[i] / d_i` times the product
    /// of `X - xs[j]` over `j != i`, where `d_i` is the product of
    /// `xs[i] - xs[j]`, computed modulo the modulus of `xs[0]`. There is at
    /// least one point, no denominator is zero and the modulus is at least 2
    /// (a division panics otherwise), and the subtractions do not go below
    /// zero.
    pub fn interpolate(xs: &[F], ys: &[F]) -> (r: Polynomial)
        requires
            xs.len() == ys.len(),
            1 <= xs.len() < usize::MAX,
            xs@[0].modulus@ >= 2,
            over_modulus(xs@, xs@[0].modulus@),
            over_modulus(ys@, xs@[0].modulus@),
            xs.len() >= 2 ==> forall|j: int| 0 <= j < xs.len() ==> (#[trigger] xs@[j]).value@ <= xs@[0].modulus@,
            forall|i: int|
                0 <= i < xs.len() ==> #[trigger] lagrange_denominator(fvals(xs@), i, xs.len() as nat, xs@[0].modulus@ as int)
                    != 0,
        ensures
            r@ == lagrange_sum(fvals(xs@), fvals(ys@), xs.len() as nat, xs@[0].modulus@ as int),
            r.modulus@ == xs@[0].modulus@,
            over_modulus(r.coeffs@, xs@[0].modulus@),
            r.coeffs.len() <= xs.len(),
            r.coeffs.len() == 0 || r@.last() != 0,
    {
        let n = xs.len();
        let ghost xv = fvals(xs@);
        let ghost yv = fvals(ys@);
        let ghost mn = xs@[0].modulus@;
        let ghost m = mn as int;
        let modulus = xs[0].modulus.clone();
        let mut result = Polynomial::zero(modulus.clone());
        let mut i: usize = 0;
        while i < n
            invariant
                n == xs.len(),
                n == ys.len(),
                n < usize::MAX,
                xv == fvals(xs@),
                yv == fvals(ys@),
                mn == xs@[0].modulus@,
                m == mn,
                m >= 2,
                modulus@ == mn,
                over_modulus(xs@, mn),
                over_modulus(ys@, mn),
                n >= 2 ==> forall|j: int| 0 <= j < n ==> (#[trigger] xs@[j]).value@ <= mn,
                forall|i: int| 0 <= i < n ==> #[trigger] lagrange_denominator(xv, i, n as nat, m) != 0,
                i <= n,
                result@ == lagrange_sum(xv, yv, i as nat, m),
                result.modulus@ == mn,
                over_modulus(result.coeffs@, mn),
            decreases n - i,
        {
            let mut first: Vec<F> = Vec::new();
            first.push(Polynomial::one(&modulus));
            proof {
                assert(fvals(first@) =~= seq![1int]);
            }
            let mut basis = Polynomial::new(first, modulus.clone());
            let mut denom = Polynomial::one(&modulus);
            let mut j: usize = 0;
            while j < n
                invariant
                    n == xs.len(),
                    n < usize::MAX,
                    xv == fvals(xs@),
                    m == mn,
                    m >= 2,
                    modulus@ == mn,
                    over_modulus(xs@, mn),
                    n >= 2 ==> forall|j: int| 0 <= j < n ==> (#[trigger] xs@[j]).value@ <= mn,
                    i < n,
                    j <= n,
                    basis@ == lagrange_basis(xv, i as int, j as nat, m),
                    basis.modulus@ == mn,
                    over_modulus(basis.coeffs@, mn),
                    basis.coeffs.len() <= j + 1,
                    i < j ==> basis.coeffs.len() <= j,
                    denom.value@ == lagrange_denominator(xv, i as int, j as nat, m),
                    denom.modulus@ == mn,
                decreases n - j,
            {
                if i == j {
                    j += 1;
                    continue;
                }
                assert(n >= 2);
                assert(xs@[j as int].value@ <= mn);
                assert(xs@[i as int].modulus@ == mn);
                let zero = F::zero(modulus.clone());
                let neg = zero.sub(&xs[j]);
                let mut pair: Vec<F> = Vec::new();
                pair.push(neg);
                pair.push(Polynomial::one(&modulus));
                proof {
                    assert(fvals(pair@) =~= seq![(0 + m - xv[j as int]) % m, 1]);
                }
                let factor = Polynomial::new(pair, modulus.clone());
                proof {
                    assert(over_modulus(factor.coeffs@, mn)) by {
                        assert forall|k: int| 0 <= k < factor.coeffs.len() implies (#[trigger] factor.coeffs@[k]).modulus@
                            == mn by {
                            assert(factor.coeffs@[k] == pair@[k]);
                        }
                    }
                    assert(factor@.len() == 2);
                    lemma_trim_prefix(basis@);
                    if basis@.len() >= 1 {
                        lemma_poly_mul_len(basis@, factor@, m);
                    }
                }
                let ghost old_len = basis.coeffs.len();
                let ghost old_view = basis@;
                assert(old_view.len() == old_len);
                basis = basis.mul(factor);
                assert(basis@.len() == basis.coeffs.len());
                assert(basis.coeffs.len() <= old_len + 1);
                let diff = xs[i].sub(&xs[j]);
                denom = denom.mul(&diff);
                j += 1;
            }
            let coeff = ys[i].div(&denom);
            let scaled = basis.scale(coeff);
            proof {
                assert(scaled@ == lagrange_term(xv, yv, i as int, m));
            }
            result = result.add(scaled);
            i += 1;
        }
        proof {
            lemma_lagrange_sum_len(xv, yv, n as nat, m);
            let l = lagrange_sum(xv, yv, (n - 1) as nat, m);
            let t = lagrange_term(xv, yv, n - 1, m);
            let len = if l.len() >= t.len() {
                l.len()
            } else {
                t.len()
            };
            lemma_trim_prefix(Seq::new(len, |k: int| (coeff_at(l, k) + coeff_at(t, k)) % m));
            assert(result@.len() == result.coeffs.len());
        }
        result
    }
}

/// The terms `c[i] x^i` of an evaluation.
pub open spec fn eval_terms(c: Seq<int>, x: int) -> spec_fn(int) -> int {
    |i: int| c[i] * pow(x, i as nat)
}

/// The terms `c[i] x^i`, zero past the end of `c`.
pub open spec fn padded_terms(c: Seq<int>, x: int) -> spec_fn(int) -> int {
    |i: int| coeff_at(c, i) * pow(x, i as nat)
}

/// Evaluation is the sum of the terms `c[i] x^i`.
proof fn lemma_eval_sum(c: Seq<int>, x: int)
    ensures
        poly_eval(c, x) == sum(c.len(), eval_terms(c, x)),
    decreases c.len(),
{
    if c.len() > 0 {
        let d = c.drop_first();
        lemma_eval_sum(d, x);
        lemma_sum_drop_first(c.len(), eval_terms(c, x));
        let shifted = |i: int| eval_terms(c, x)(i + 1);
        assert forall|i: int| 0 <= i < d.len() implies #[trigger] shifted(i) == x * eval_terms(d, x)(i) by {
            lemma_pow_adds(x, 1, i as nat);
            lemma_pow1(x);
            assert((i + 1) as nat == 1 + i as nat);
            lemma_mul_is_associative(d[i], x, pow(x, i as nat));
            lemma_mul_is_commutative(d[i], x);
            lemma_mul_is_associative(x, d[i], pow(x, i as nat));
        }
        lemma_sum_scale(d.len(), eval_terms(d, x), shifted, x);
        lemma_pow0(x);
    }
}

/// Past the end, the padded terms are zero: their sum over `len >= c.len()`
/// terms is the evaluation.
proof fn lemma_eval_padded(c: Seq<int>, x: int, len: nat)
    requires
        len >= c.len(),
    ensures
        sum(len, padded_terms(c, x)) == poly_eval(c, x),
    decreases len,
{
    if len > c.len() {
        lemma_eval_padded(c, x, (len - 1) as nat);
    } else {
        lemma_eval_sum(c, x);
        lemma_sum_ext(len, padded_terms(c, x), eval_terms(c, x));
    }
}

/// `sum(p + q, f)` is `sum(p, f)` plus the sum of the `q` terms after.
proof fn lemma_sum_concat(p: nat, q: nat, f: spec_fn(int) -> int)
    ensures
        sum(p + q, f) == sum(p, f) + sum(q, |j: int| f(p + j)),
    decreases q,
{
    if q > 0 {
        lemma_sum_concat(p, (q - 1) as nat, f);
        assert((p + q - 1) as nat == p + (q - 1) as nat);
    }
}

/// Trailing zeros do not change the value.
proof fn lemma_eval_trim(s: Seq<int>, x: int)
    ensures
        poly_eval(trim(s), x) == poly_eval(s, x),
    decreases s.len(),
{
    if s.len() > 0 && s.last() == 0 {
        let d = s.drop_last();
        lemma_eval_trim(d, x);
        lemma_eval_sum(s, x);
        lemma_eval_sum(d, x);
        lemma_sum_ext(d.len(), eval_terms(s, x), eval_terms(d, x));
        lemma_mul_basics(pow(x, (s.len() - 1) as nat));
    }
}

/// Values of sequences that agree mod `m` agree mod `m`.
proof fn lemma_eval_mod(s: Seq<int>, t: Seq<int>, x: int, m: int)
    requires
        m > 0,
        s.len() == t.len(),
        forall|i: int| 0 <= i < s.len() ==> #[trigger] s[i] % m == t[i] % m,
    ensures
        poly_eval(s, x) % m == poly_eval(t, x) % m,
{
    lemma_eval_sum(s, x);
    lemma_eval_sum(t, x);
    assert forall|i: int| 0 <= i < s.len() implies #[trigger] eval_terms(s, x)(i) % m == eval_terms(t, x)(i)
        % m by {
        lemma_mul_mod_noop_left(s[i], pow(x, i as nat), m);
        lemma_mul_mod_noop_left(t[i], pow(x, i as nat), m);
    }
    lemma_sum_mod(s.len(), eval_terms(s, x), eval_terms(t, x), m);
}

/// Evaluation takes sums to sums (mod `m`).
pub proof fn lemma_eval_add(a: Seq<int>, b: Seq<int>, x: int, m: int)
    requires
        m > 0,
    ensures
        poly_eval(poly_add(a, b, m), x) % m == (poly_eval(a, x) + poly_eval(b, x)) % m,
{
    let len = if a.len() >= b.len() {
        a.len()
    } else {
        b.len()
    };
    let s = Seq::new(len, |k: int| (coeff_at(a, k) + coeff_at(b, k)) % m);
    let t = Seq::new(len, |k: int| coeff_at(a, k) + coeff_at(b, k));
    lemma_eval_trim(s, x);
    assert forall|i: int| 0 <= i < len implies #[trigger] s[i] % m == t[i] % m by {
        lemma_mod_twice(t[i], m);
    }
    lemma_eval_mod(s, t, x, m);
    lemma_eval_sum(t, x);
    assert forall|i: int| 0 <= i < len implies #[trigger] eval_terms(t, x)(i) == padded_terms(a, x)(i)
        + padded_terms(b, x)(i) by {
        lemma_mul_is_distributive_add_other_way(pow(x, i as nat), coeff_at(a, i), coeff_at(b, i));
    }
    lemma_sum_plus(len, padded_terms(a, x), padded_terms(b, x), eval_terms(t, x));
    lemma_eval_padded(a, x, len);
    lemma_eval_padded(b, x, len);
}

/// Evaluation takes scaling to multiplication (mod `m`).
pub proof fn lemma_eval_scale(a: Seq<int>, c: int, x: int, m: int)
    requires
        m > 0,
    ensures
        poly_eval(poly_scale(a, c, m), x) % m == (c * poly_eval(a, x)) % m,
{
    let s = a.map_values(|v: int| (v * c) % m);
    let t = a.map_values(|v: int| v * c);
    lemma_eval_trim(s, x);
    assert forall|i: int| 0 <= i < a.len() implies #[trigger] s[i] % m == t[i] % m by {
        lemma_mod_twice(t[i], m);
    }
    lemma_eval_mod(s, t, x, m);
    lemma_eval_sum(t, x);
    lemma_eval_sum(a, x);
    assert forall|i: int| 0 <= i < a.len() implies #[trigger] eval_terms(t, x)(i) == c * eval_terms(a, x)(i) by {
        lemma_mul_is_commutative(a[i], c);
        lemma_mul_is_associative(c, a[i], pow(x, i as nat));
    }
    lemma_sum_scale(a.len(), eval_terms(a, x), eval_terms(t, x), c);
}

/// The padded terms of `b` moved up by `t` places sum to `x^t` times its
/// value, once the window covers all of `b`.
proof fn lemma_eval_shifted(b: Seq<int>, x: int, t: nat, len: nat)
    requires
        len >= t + b.len(),
    ensures
        sum(len, |k: int| coeff_at(b, k - t) * pow(x, k as nat)) == pow(x, t) * poly_eval(b, x),
{
    let f = |k: int| coeff_at(b, k - t) * pow(x, k as nat);
    let q = (len - t) as nat;
    lemma_sum_concat(t, q, f);
    assert(t + q == len);
    lemma_sum_zero(t, f);
    let g = |j: int| f(t + j);
    assert forall|j: int| 0 <= j < q implies #[trigger] g(j) == pow(x, t) * padded_terms(b, x)(j) by {
        lemma_pow_adds(x, t, j as nat);
        assert((t + j) as nat == t + j as nat);
        assert(t + j - t == j);
        lemma_mul_is_associative(coeff_at(b, j), pow(x, t), pow(x, j as nat));
        lemma_mul_is_commutative(coeff_at(b, j), pow(x, t));
        lemma_mul_is_associative(pow(x, t), coeff_at(b, j), pow(x, j as nat));
    }
    lemma_sum_scale(q, padded_terms(b, x), g, pow(x, t));
    lemma_eval_padded(b, x, q);
}

/// Evaluation takes products to products (mod `m`).
pub proof fn lemma_eval_mul(a: Seq<int>, b: Seq<int>, x: int, m: int)
    requires
        m > 0,
    ensures
        poly_eval(poly_mul(a, b, m), x) % m == (poly_eval(a, x) * poly_eval(b, x)) % m,
{
    if a.len() == 0 || b.len() == 0 {
        if a.len() == 0 {
            assert(poly_eval(a, x) == 0);
        } else {
            assert(poly_eval(b, x) == 0);
        }
        lemma_mul_basics(poly_eval(a, x));
        lemma_mul_basics(poly_eval(b, x));
        return;
    }
    let la = a.len();
    let len = (a.len() + b.len() - 1) as nat;
    let cc = |k: int| sum(la, conv_terms(a, b, k));
    let s = Seq::new(len, |k: int| cc(k) % m);
    let t = Seq::new(len, |k: int| cc(k));
    lemma_eval_trim(s, x);
    assert forall|i: int| 0 <= i < len implies #[trigger] s[i] % m == t[i] % m by {
        lemma_mod_twice(t[i], m);
    }
    lemma_eval_mod(s, t, x, m);
    lemma_eval_sum(t, x);
    let f = |k: int, u: int| a[u] * coeff_at(b, k - u) * pow(x, k as nat);
    let rows = eval_terms(t, x);
    let cols = |u: int| a[u] * pow(x, u as nat) * poly_eval(b, x);
    assert forall|k: int| 0 <= k < len implies #[trigger] rows(k) == sum(la, |u: int| f(k, u)) by {
        let fk = |u: int| f(k, u);
        assert forall|u: int| 0 <= u < la implies #[trigger] fk(u) == pow(x, k as nat) * conv_terms(a, b, k)(u) by {
            lemma_mul_is_commutative(a[u] * coeff_at(b, k - u), pow(x, k as nat));
            lemma_mul_is_associative(pow(x, k as nat), a[u], coeff_at(b, k - u));
        }
        lemma_sum_scale(la, conv_terms(a, b, k), fk, pow(x, k as nat));
        lemma_sum_ext(la, fk, |u: int| f(k, u));
        lemma_mul_is_commutative(cc(k), pow(x, k as nat));
    }
    assert forall|u: int| 0 <= u < la implies #[trigger] cols(u) == sum(len, |k: int| f(k, u)) by {
        let h = |k: int| coeff_at(b, k - u) * pow(x, k as nat);
        let fu = |k: int| f(k, u);
        assert forall|k: int| 0 <= k < len implies #[trigger] fu(k) == a[u] * h(k) by {
            lemma_mul_is_associative(a[u], coeff_at(b, k - u), pow(x, k as nat));
        }
        lemma_sum_scale(len, h, fu, a[u]);
        lemma_sum_ext(len, fu, |k: int| f(k, u));
        lemma_eval_shifted(b, x, u as nat, len);
        assert(sum(len, h) == sum(len, |k: int| coeff_at(b, k - (u as nat)) * pow(x, k as nat))) by {
            lemma_sum_ext(len, h, |k: int| coeff_at(b, k - (u as nat)) * pow(x, k as nat));
        }
        lemma_mul_is_associative(a[u], pow(x, u as nat), poly_eval(b, x));
    }
    lemma_sum_swap(len, la, f, rows, cols);
    lemma_eval_sum(a, x);
    assert forall|u: int| 0 <= u < la implies #[trigger] cols(u) == poly_eval(b, x) * eval_terms(a, x)(u) by {
        lemma_mul_is_commutative(a[u] * pow(x, u as nat), poly_eval(b, x));
    }
    lemma_sum_scale(la, eval_terms(a, x), cols, poly_eval(b, x));
    lemma_mul_is_commutative(poly_eval(b, x), poly_eval(a, x));
    assert(s =~= Seq::new(len, |k: int| sum(a.len(), conv_terms(a, b, k)) % m));
    assert(poly_mul(a, b, m) == trim(s));
    assert(poly_eval(t, x) == sum(len, rows));
    assert(sum(len, rows) == sum(la, cols));
    assert(sum(la, cols) == poly_eval(b, x) * poly_eval(a, x));
}

/// The factor `X - c` evaluated at `x` is `x - c` (mod `m`).
proof fn lemma_eval_linear(c: int, x: int, m: int)
    requires
        m > 0,
    ensures
        poly_eval(linear_factor(c, m), x) % m == (x - c) % m,
{
    let s = seq![(0 + m - c) % m, 1int];
    assert(trim(s) == s) by {
        assert(s.last() == 1);
    }
    let t = s.drop_first();
    assert(t.drop_first() =~= Seq::<int>::empty());
    assert(poly_eval(t.drop_first(), x) == 0);
    assert(poly_eval(t, x) == 1 + x * 0);
    assert(poly_eval(s, x) == (m - c) % m + x * 1);
    lemma_add_mod_noop(m - c, x, m);
    lemma_mod_twice(m - c, m);
    lemma_add_mod_noop((m - c) % m, x, m);
    lemma_mod_add_multiples_vanish(x - c, m);
}

/// The product of `x - xs[j]` over `j < upto`, `j != i`.
pub open spec fn diff_prod(xs: Seq<int>, i: int, x: int, upto: nat) -> int
    decreases upto,
{
    if upto == 0 {
        1
    } else {
        diff_prod(xs, i, x, (upto - 1) as nat) * (if upto - 1 == i {
            1
        } else {
            x - xs[upto - 1]
        })
    }
}

/// The basis polynomial evaluated at `x` is the product of the differences
/// (mod `m`).
proof fn lemma_eval_basis(xs: Seq<int>, i: int, x: int, upto: nat, m: int)
    requires
        m > 1,
        upto <= xs.len(),
    ensures
        poly_eval(lagrange_basis(xs, i, upto, m), x) % m == diff_prod(xs, i, x, upto) % m,
    decreases upto,
{
    if upto == 0 {
        assert(trim(seq![1int]) == seq![1int]);
        assert(seq![1int].drop_first() =~= Seq::<int>::empty());
        assert(poly_eval(seq![1int].drop_first(), x) == 0);
        assert(poly_eval(seq![1int], x) == 1 + x * 0);
    } else {
        let prev = lagrange_basis(xs, i, (upto - 1) as nat, m);
        lemma_eval_basis(xs, i, x, (upto - 1) as nat, m);
        let d = diff_prod(xs, i, x, (upto - 1) as nat);
        if upto - 1 != i {
            let c = xs[upto - 1];
            lemma_eval_mul(prev, linear_factor(c, m), x, m);
            lemma_eval_linear(c, x, m);
            lemma_mul_mod_noop(poly_eval(prev, x), poly_eval(linear_factor(c, m), x), m);
            lemma_mul_mod_noop(d, x - c, m);
        } else {
            lemma_mul_basics(d);
        }
    }
}

/// The denominator is the product of the differences from `xs[i]` (mod `m`).
proof fn lemma_denominator(xs: Seq<int>, i: int, upto: nat, m: int)
    requires
        m > 1,
        upto <= xs.len(),
    ensures
        lagrange_denominator(xs, i, upto, m) % m == diff_prod(xs, i, xs[i], upto) % m,
        0 <= lagrange_denominator(xs, i, upto, m) < m,
    decreases upto,
{
    if upto == 0 {
        lemma_small_mod(1, m as nat);
    } else {
        lemma_denominator(xs, i, (upto - 1) as nat, m);
        let prev = lagrange_denominator(xs, i, (upto - 1) as nat, m);
        let d = diff_prod(xs, i, xs[i], (upto - 1) as nat);
        if upto - 1 != i {
            let c = xs[upto - 1];
            let q = (xs[i] + m - c) % m;
            lemma_mod_add_multiples_vanish(xs[i] - c, m);
            lemma_mod_twice(prev * q, m);
            lemma_mul_mod_noop(prev, q, m);
            lemma_mul_mod_noop(d, xs[i] - c, m);
            lemma_mod_twice(xs[i] - c, m);
            lemma_mod_bound(prev * q, m);
        } else {
            lemma_mul_basics(d);
        }
    }
}

/// A product of differences that includes `x - x` is 0.
proof fn lemma_diff_prod_zero(xs: Seq<int>, i: int, k: int, upto: nat)
    requires
        0 <= k < upto <= xs.len(),
        k != i,
    ensures
        diff_prod(xs, i, xs[k], upto) == 0,
    decreases upto,
{
    if upto - 1 == k {
        lemma_mul_basics(diff_prod(xs, i, xs[k], (upto - 1) as nat));
    } else {
        lemma_diff_prod_zero(xs, i, k, (upto - 1) as nat);
        lemma_mul_basics(if upto - 1 == i {
            1
        } else {
            xs[k] - xs[upto - 1]
        });
    }
}

/// A product of differences between distinct residues of a prime is not a
/// multiple of it.
proof fn lemma_diff_prod_nonzero(xs: Seq<int>, i: int, upto: nat, m: int)
    requires
        is_prime(m),
        0 <= i < xs.len(),
        upto <= xs.len(),
        forall|j: int| 0 <= j < xs.len() ==> 0 <= #[trigger] xs[j] < m,
        forall|a: int, b: int| 0 <= a < b < xs.len() ==> xs[a] != xs[b],
    ensures
        diff_prod(xs, i, xs[i], upto) % m != 0,
    decreases upto,
{
    if upto == 0 {
        lemma_small_mod(1, m as nat);
    } else {
        lemma_diff_prod_nonzero(xs, i, (upto - 1) as nat, m);
        let d = diff_prod(xs, i, xs[i], (upto - 1) as nat);
        if upto - 1 != i {
            let c = xs[i] - xs[upto - 1];
            assert(c % m != 0) by {
                if c > 0 {
                    lemma_small_mod(c as nat, m as nat);
                } else {
                    lemma_mod_add_multiples_vanish(c, m);
                    lemma_small_mod((c + m) as nat, m as nat);
                }
            }
            if (d * c) % m == 0 {
                lemma_mul_mod_noop(d, c, m);
                lemma_mod_bound(d, m);
                lemma_mod_bound(c, m);
                lemma_euclid(d % m, c % m, m);
                lemma_mod_twice(d, m);
                lemma_mod_twice(c, m);
            }
        } else {
            lemma_mul_basics(d);
        }
    }
}

/// The coefficient of term `i`: `ys[i]` divided by its denominator.
pub open spec fn lagrange_coeff(xs: Seq<int>, ys: Seq<int>, i: int, m: int) -> int {
    (ys[i] * inverse_value(lagrange_denominator(xs, i, xs.len(), m) as nat, m as nat)) % m
}

/// The sum of the first `upto` terms evaluated at `x` is the sum of their
/// coefficients times their products of differences (mod `m`).
proof fn lemma_eval_sum_terms(xs: Seq<int>, ys: Seq<int>, x: int, upto: nat, m: int)
    requires
        m > 1,
        upto <= xs.len(),
    ensures
        poly_eval(lagrange_sum(xs, ys, upto, m), x) % m == sum(
            upto,
            |i: int| lagrange_coeff(xs, ys, i, m) * diff_prod(xs, i, x, xs.len()),
        ) % m,
    decreases upto,
{
    let f = |i: int| lagrange_coeff(xs, ys, i, m) * diff_prod(xs, i, x, xs.len());
    if upto == 0 {
        lemma_small_mod(0, m as nat);
    } else {
        let i = upto - 1;
        lemma_eval_sum_terms(xs, ys, x, (upto - 1) as nat, m);
        let prev = lagrange_sum(xs, ys, (upto - 1) as nat, m);
        let basis = lagrange_basis(xs, i, xs.len(), m);
        let c = lagrange_coeff(xs, ys, i, m);
        lemma_eval_add(prev, lagrange_term(xs, ys, i, m), x, m);
        lemma_eval_scale(basis, c, x, m);
        lemma_eval_basis(xs, i, x, xs.len(), m);
        lemma_mul_mod_noop_right(c, poly_eval(basis, x), m);
        lemma_mul_mod_noop_right(c, diff_prod(xs, i, x, xs.len()), m);
        let e_prev = poly_eval(prev, x);
        let e_term = poly_eval(lagrange_term(xs, ys, i, m), x);
        let s_prev = sum((upto - 1) as nat, f);
        lemma_add_mod_noop(e_prev, e_term, m);
        lemma_add_mod_noop(s_prev, f(i), m);
    }
}

/// Every coefficient of a partial Lagrange sum is a residue mod `m`.
proof fn lemma_lagrange_sum_reduced(xs: Seq<int>, ys: Seq<int>, upto: nat, m: int)
    requires
        m > 0,
    ensures
        forall|i: int|
            0 <= i < lagrange_sum(xs, ys, upto, m).len() ==> 0 <= #[trigger] lagrange_sum(xs, ys, upto, m)[i] < m,
{
    if upto > 0 {
        let a = lagrange_sum(xs, ys, (upto - 1) as nat, m);
        let b = lagrange_term(xs, ys, upto - 1, m);
        let len = if a.len() >= b.len() {
            a.len()
        } else {
            b.len()
        };
        let s = Seq::new(len, |k: int| (coeff_at(a, k) + coeff_at(b, k)) % m);
        lemma_trim_prefix(s);
        assert forall|i: int| 0 <= i < trim(s).len() implies 0 <= #[trigger] trim(s)[i] < m by {
            assert(trim(s)[i] == s[i]);
            lemma_mod_bound(coeff_at(a, i) + coeff_at(b, i), m);
        }
    }
}

/// Lagrange interpolation passes through its points: for residues mod a
/// prime `m` whose x-coordinates are
/// distinct, every denominator is nonzero, every coefficient of the
/// interpolation polynomial is a residue, and its value at `xs[k]` is
/// `ys[k]`.
pub proof fn lemma_interpolation_passes_through(xs: Seq<int>, ys: Seq<int>, m: int, k: int)
    requires
        xs.len() == ys.len(),
        is_prime(m),
        forall|j: int| 0 <= j < xs.len() ==> 0 <= #[trigger] xs[j] < m,
        forall|j: int| 0 <= j < ys.len() ==> 0 <= #[trigger] ys[j] < m,
        forall|a: int, b: int| 0 <= a < b < xs.len() ==> xs[a] != xs[b],
        0 <= k < xs.len(),
    ensures
        forall|i: int| 0 <= i < xs.len() ==> #[trigger] lagrange_denominator(xs, i, xs.len(), m) != 0,
        forall|i: int|
            0 <= i < lagrange_sum(xs, ys, xs.len(), m).len() ==> 0 <= #[trigger] lagrange_sum(xs, ys, xs.len(), m)[i]
                < m,
        poly_eval(lagrange_sum(xs, ys, xs.len(), m), xs[k]) % m == ys[k],
{
    let n = xs.len();
    lemma_lagrange_sum_reduced(xs, ys, n, m);
    assert forall|i: int| 0 <= i < n implies #[trigger] lagrange_denominator(xs, i, n, m) != 0 by {
        lemma_denominator(xs, i, n, m);
        lemma_diff_prod_nonzero(xs, i, n, m);
        if lagrange_denominator(xs, i, n, m) == 0 {
            lemma_small_mod(0, m as nat);
        }
    }
    let f = |i: int| lagrange_coeff(xs, ys, i, m) * diff_prod(xs, i, xs[k], n);
    lemma_eval_sum_terms(xs, ys, xs[k], n, m);
    assert forall|i: int| 0 <= i < n && i != k implies #[trigger] f(i) == 0 by {
        lemma_diff_prod_zero(xs, i, k, n);
        lemma_mul_basics(lagrange_coeff(xs, ys, i, m));
    }
    lemma_sum_single(n, f, k);
    // f(k) = ys[k] / d * (product), and the product is d mod m
    let d = lagrange_denominator(xs, k, n, m);
    let p = diff_prod(xs, k, xs[k], n);
    let inv = inverse_value(d as nat, m as nat);
    lemma_denominator(xs, k, n, m);
    lemma_small_mod(d as nat, m as nat);
    assert(d % m != 0) by {
        lemma_diff_prod_nonzero(xs, k, n, m);
    }
    lemma_fermat_prime(m, d);
    assert((d * inv) % m == 1) by {
        lemma_pow1(d);
        lemma_pow_adds(d, 1, (m - 2) as nat);
        lemma_mul_mod_noop_right(d, pow(d, (m - 2) as nat), m);
    }
    let c = lagrange_coeff(xs, ys, k, m);
    lemma_mul_mod_noop_right(c, p, m);
    lemma_mul_mod_noop_right(c, d, m);
    lemma_mul_mod_noop_left(ys[k] * inv, d, m);
    assert(ys[k] * inv * d == ys[k] * (d * inv)) by (nonlinear_arith);
    lemma_mul_mod_noop_right(ys[k], d * inv, m);
    lemma_small_mod(ys[k] as nat, m as nat);
}

} // verus!
