//! The radix-2 transform over residues `F` of any size: in place, by
//! bit-reversal swaps and Cooley-Tukey butterflies whose twiddles are built
//! up by repeated multiplication; its inverse; and the domain of powers of a
//! root of unity found from a generator of the field.

use vstd::prelude::*;
use vstd::arithmetic::div_mod::*;
use vstd::arithmetic::mul::*;
use vstd::arithmetic::power::*;
use vstd::arithmetic::power2::pow2;
use crate::ff::{inverse_value, F};
use crate::bignum::{BigNat, big_add, big_div, big_eq, big_le, big_low_u64, big_modpow, big_mul, big_rem, big_sub};
use crate::ntt_babybear::log2_exact;
use crate::ntt::bitrev::{
    bit_reverse, lemma_bit_reversed_index, lemma_pow2_is_pow2, lemma_rev_bits_bound,
    lemma_rev_involution, rev_bits,
};
use crate::ntt::cpu::lemma_block_position;
use crate::ntt::dft::{dft_at, is_root_table, lemma_fft_inverse, lemma_fft_is_dft, lemma_inverse_root_table};
use crate::math::binomial::lemma_fermat_prime;
use crate::math::primes::{is_prime, lemma_divides_trans, lemma_divisor_le, lemma_euclid};
use crate::ntt::cpu::{lemma_no_small_divisor_prime, passes_generator_test};
use crate::ntt::transform;
use crate::ntt::transform::{
    butterfly, is_pow2, lemma_bit_reversed_is_partial, lemma_bit_reversed_len, lemma_partial_full,
    lemma_pow2_between, lemma_pow2_divides, lemma_pow2_even, lemma_pow2_pos, lemma_stage_step,
    partial_fft, stage, inverse_roots, scale_mod,
};

verus! {

/// The values of the elements as integers.
pub open spec fn fvals(s: Seq<F>) -> Seq<int> {
    s.map_values(|x: F| x.value@ as int)
}

/// Every integer reduced mod `m`.
pub open spec fn reduce_mod(v: Seq<int>, m: int) -> Seq<int> {
    v.map_values(|x: int| x % m)
}

/// Every element is taken modulo `m`.
pub open spec fn over_modulus(s: Seq<F>, m: nat) -> bool {
    forall|i: int| 0 <= i < s.len() ==> (#[trigger] s[i]).modulus@ == m
}

/// `w^0, w^1, ..., w^(n-1)`, each reduced mod `m`.
pub open spec fn power_table(w: int, n: nat, m: int) -> Seq<int> {
    Seq::new(n, |i: int| pow(w, i as nat) % m)
}

/// The transform of `v` (taken mod `m`) with the powers of `w` as twiddles.
pub open spec fn fft_spec(v: Seq<int>, w: int, m: int) -> Seq<int> {
    transform::fft(reduce_mod(v, m), power_table(w, v.len(), m), m)
}

/// One butterfly on `u` and `hi` with twiddle `w < m`, reduced mod `m`, gives
/// the stage's two entries on the residues of `u` and `hi`.
proof fn lemma_butterfly_mod(u: int, hi: int, w: int, m: int)
    requires
        m > 0,
        u >= 0,
        hi >= 0,
        0 <= w < m,
    ensures
        (u + (hi * w) % m) % m == (u % m + (w * (hi % m)) % m) % m,
        (u + m - (hi * w) % m) % m == (u % m + m - (w * (hi % m)) % m) % m,
{
    let v = (hi * w) % m;
    assert(v == (w * (hi % m)) % m) by {
        lemma_mul_mod_noop_right(w, hi, m);
        lemma_mul_is_commutative(w, hi);
    }
    lemma_mod_bound(hi * w, m);
    lemma_add_mod_noop(u, v, m);
    lemma_mod_twice(v, m);
    lemma_add_mod_noop(u % m, v, m);
    lemma_mod_twice(u, m);
    lemma_add_mod_noop(u, m - v, m);
    lemma_add_mod_noop(u % m, m - v, m);
}

/// Forward transform in place: the bit-reversal permutation, then one
/// butterfly stage per block size, the twiddles of a stage with blocks of
/// `len` being the powers of `root^(n/len)`. The number of elements is a
/// power of two (or below two, when nothing changes); every element and the
/// root are taken modulo the same number. The entries come out reduced.
pub fn fft(values: &mut [F], root: &F)
    requires
        old(values).len() <= 1 || is_pow2(old(values).len() as nat),
        old(values).len() <= u32::MAX,
        old(values).len() >= 2 ==> root.modulus@ > 0,
        over_modulus(old(values)@, root.modulus@),
    ensures
        final(values).len() == old(values).len(),
        over_modulus(final(values)@, root.modulus@),
        old(values).len() <= 1 ==> final(values)@ == old(values)@,
        old(values).len() >= 2 ==> forall|k: int|
            0 <= k < old(values).len() ==> (#[trigger] final(values)@[k]).value@ < root.modulus@,
        old(values).len() >= 2 ==> fvals(final(values)@) == fft_spec(
            fvals(old(values)@),
            root.value@ as int,
            root.modulus@ as int,
        ),
{
    let n = values.len();
    if n < 2 {
        return ;
    }
    let ghost m = root.modulus@ as int;
    let ghost mn = root.modulus@;
    let ghost v0 = values@;
    let ghost vm = reduce_mod(fvals(v0), m);
    let ghost rs = power_table(root.value@ as int, n as nat, m);
    let log_n = log2_exact(n);
    let ghost l = log_n as nat;
    let mut i: usize = 0;
    while i < n
        invariant
            values.len() == n,
            v0.len() == n,
            n == pow2(l),
            l == log_n,
            i <= n,
            forall|k: int|
                0 <= k < n && (k < i || 0 <= rev_bits(k, l) < i) ==> #[trigger] values[k]
                    == v0[rev_bits(k, l)],
            forall|k: int|
                0 <= k < n && !(k < i || 0 <= rev_bits(k, l) < i) ==> #[trigger] values[k] == v0[k],
        decreases n - i,
    {
        let j = bit_reverse(i, log_n);
        proof {
            lemma_rev_bits_bound(i as int, l);
            lemma_rev_involution(i as int, l);
        }
        let ghost before = values@;
        if i < j {
            values.swap(i, j);
        }
        proof {
            assert forall|k: int| 0 <= k < n && (k < i + 1 || 0 <= rev_bits(k, l) < i + 1) implies #[trigger] values[k]
                == v0[rev_bits(k, l)] by {
                lemma_rev_involution(k, l);
                lemma_rev_bits_bound(k, l);
                if k == i || k == j {
                } else {
                    assert(values[k] == before[k]);
                }
            }
            assert forall|k: int| 0 <= k < n && !(k < i + 1 || 0 <= rev_bits(k, l) < i + 1) implies #[trigger] values[k]
                == v0[k] by {
                lemma_rev_involution(k, l);
                assert(values[k] == before[k]);
            }
        }
        i += 1;
    }
    proof {
        lemma_bit_reversed_index(vm, l);
        lemma_bit_reversed_is_partial(vm, rs, m);
        lemma_bit_reversed_len(vm);
        assert(reduce_mod(fvals(values@), m) =~= partial_fft(vm, rs, m, 1)) by {
            assert forall|k: int| 0 <= k < n implies reduce_mod(fvals(values@), m)[k] == partial_fft(
                vm,
                rs,
                m,
                1,
            )[k] by {
                lemma_rev_bits_bound(k, l);
                assert(values[k] == v0[rev_bits(k, l)]);
            }
        }
        assert forall|k: int| 0 <= k < n implies (#[trigger] values@[k]).modulus@ == mn by {
            lemma_rev_involution(k, l);
            lemma_rev_bits_bound(k, l);
        }
        lemma_pow2_is_pow2(l);
        assert(is_pow2(2)) by {
            reveal_with_fuel(is_pow2, 2);
        }
    }
    let mut len: usize = 2;
    while len <= n
        invariant_except_break
            values.len() == n,
            vm.len() == n,
            rs.len() == n,
            rs == power_table(root.value@ as int, n as nat, m),
            m == root.modulus@,
            mn == root.modulus@,
            m > 0,
            n <= u32::MAX,
            is_pow2(n as nat),
            n >= 2,
            2 <= len <= n,
            is_pow2(len as nat),
            reduce_mod(fvals(values@), m) == partial_fft(vm, rs, m, len as int / 2),
            over_modulus(values@, mn),
            len > 2 ==> forall|k: int| 0 <= k < n ==> (#[trigger] values@[k]).value@ < m,
        ensures
            values.len() == n,
            reduce_mod(fvals(values@), m) == transform::fft(vm, rs, m),
            over_modulus(values@, mn),
            forall|k: int| 0 <= k < n ==> (#[trigger] values@[k]).value@ < m,
        decreases n - len,
    {
        let half = len / 2;
        let step = n / len;
        proof {
            lemma_pow2_divides(len as nat, n as nat);
            lemma_pow2_even(len as nat);
            lemma_div_is_ordered_by_denominator(n as int, 1, len as int);
            assert(n as int / 1 == n as int);
        }
        assert((step as u32) as usize == step);
        let w_len = root.clone().pow(step as u32);
        let ghost c0 = values@;
        let ghost s0 = reduce_mod(fvals(c0), m);
        let ghost target = stage(s0, rs, m, len as int);
        assert(s0.len() as int / (len as int) == step);
        let mut start: usize = 0;
        let ghost mut q: int = 0;
        while start < n
            invariant
                values.len() == n,
                c0.len() == n,
                s0 == reduce_mod(fvals(c0), m),
                rs == power_table(root.value@ as int, n as nat, m),
                rs.len() == n,
                m == root.modulus@,
                mn == root.modulus@,
                m > 0,
                target == stage(s0, rs, m, len as int),
                s0.len() as int / (len as int) == step,
                w_len.value@ == pow(root.value@ as int, step as nat) % m,
                w_len.modulus@ == mn,
                half == len / 2,
                step == n / len,
                len >= 2,
                len % 2 == 0,
                n % len == 0,
                over_modulus(c0, mn),
                0 <= q,
                start == q * len,
                start <= n,
                forall|k: int|
                    0 <= k < start ==> (#[trigger] values@[k]).value@ as int % m == target[k]
                        && values@[k].value@ < m && values@[k].modulus@ == mn,
                forall|k: int| start <= k < n ==> #[trigger] values@[k] == c0[k],
            decreases n - start,
        {
            let mut w = F::new(1, values[0].modulus.clone());
            let mut j: usize = 0;
            proof {
                lemma_block_position(q, len as int, 0, n as int);
                lemma_pow0(root.value@ as int);
            }
            while j < half
                invariant
                    values.len() == n,
                    c0.len() == n,
                    s0 == reduce_mod(fvals(c0), m),
                    rs == power_table(root.value@ as int, n as nat, m),
                    rs.len() == n,
                    m == root.modulus@,
                    mn == root.modulus@,
                    m > 0,
                    target == stage(s0, rs, m, len as int),
                    s0.len() as int / (len as int) == step,
                    w_len.value@ == pow(root.value@ as int, step as nat) % m,
                    w_len.modulus@ == mn,
                    w.value@ == pow(root.value@ as int, (j * step) as nat) % m,
                    w.modulus@ == mn,
                    half == len / 2,
                    step == n / len,
                    len >= 2,
                    len % 2 == 0,
                    n % len == 0,
                    over_modulus(c0, mn),
                    0 <= q,
                    start == q * len,
                    start + len <= n,
                    0 <= j <= half,
                    forall|k: int|
                        (0 <= k < start + j || start + half <= k < start + half + j)
                            ==> (#[trigger] values@[k]).value@ as int % m == target[k]
                            && values@[k].value@ < m && values@[k].modulus@ == mn,
                    forall|k: int|
                        (start + j <= k < start + half) || (start + half + j <= k < n)
                            ==> #[trigger] values@[k] == c0[k],
                decreases half - j,
            {
                proof {
                    lemma_block_position(q, len as int, j as int, n as int);
                }
                let ghost i0 = (start + j) as int;
                let ghost i1 = (start + j + half) as int;
                let u = values[start + j].clone();
                let hi = values[start + j + half].clone();
                assert(values@[i0] == c0[i0]);
                assert(values@[i1] == c0[i1]);
                assert(i0 % (len as int) == j);
                let v = hi.mul(&w);
                assert(rs[(j * step) as int] == w.value@);
                proof {
                    lemma_mod_bound(pow(root.value@ as int, (j * step) as nat), m);
                    lemma_butterfly_mod(u.value@ as int, hi.value@ as int, w.value@ as int, m);
                    lemma_mul_is_commutative(hi.value@ as int, w.value@ as int);
                    assert(target[i0] == butterfly(s0, rs, m, len as int, i0));
                    assert(target[i1] == butterfly(s0, rs, m, len as int, i1));
                    assert(s0[i0] == (u.value@ as int) % m);
                    assert(s0[i1] == (hi.value@ as int) % m);
                    lemma_mod_bound((hi.value@ * w.value@) as int, m);
                    lemma_mod_bound((u.value@ + v.value@) as int, m);
                    lemma_mod_bound(u.value@ + m - v.value@, m);
                    lemma_mod_twice((u.value@ + v.value@) as int, m);
                    lemma_mod_twice((u.value@ + m - v.value@) as int, m);
                }
                values[start + j] = u.add(&v);
                values[start + j + half] = u.sub(&v);
                proof {
                    let e = (j * step) as nat;
                    lemma_mul_mod_noop(
                        pow(root.value@ as int, e),
                        pow(root.value@ as int, step as nat),
                        m,
                    );
                    lemma_pow_adds(root.value@ as int, e, step as nat);
                    lemma_mul_is_distributive_add_other_way(step as int, j as int, 1);
                }
                w = w.mul(&w_len);
                j += 1;
            }
            start += len;
            proof {
                q = q + 1;
                lemma_mul_is_distributive_add_other_way(len as int, q - 1, 1);
            }
        }
        assert(reduce_mod(fvals(values@), m) =~= target);
        proof {
            lemma_stage_step(vm, rs, m, len as int);
        }
        if len == n {
            break;
        }
        proof {
            lemma_pow2_between(len as nat, n as nat);
        }
        len = len * 2;
        assert((len / 2) as int == len as int / 2);
    }
    proof {
        lemma_partial_full(vm, rs, m);
        assert(fvals(values@) =~= reduce_mod(fvals(values@), m)) by {
            assert forall|k: int| 0 <= k < n implies fvals(values@)[k] == reduce_mod(fvals(values@), m)[k] by {
                lemma_small_mod(values@[k].value@, mn);
            }
        }
    }
}


/// The inverse transform of `v` with root `w` mod `m`: the transform with
/// `w^(n-1) mod m`, every entry then multiplied by `(n mod m)^(m-2) mod m`.
pub open spec fn ifft_spec(v: Seq<int>, w: int, m: int) -> Seq<int> {
    let n = v.len();
    scale_mod(
        fft_spec(v, pow(w, (n - 1) as nat) % m, m),
        inverse_value(((n as int) % m) as nat, m as nat),
        m,
    )
}

/// Inverse transform in place: the forward transform with `root^(n-1)`, then
/// every entry times `1 / n` (the quotient of the elements 1 and `n`). The
/// number of elements is a power of two that is not a multiple of the
/// modulus (dividing by zero panics), and the modulus is at least 2.
pub fn ifft(values: &mut [F], root: &F)
    requires
        is_pow2(old(values).len() as nat),
        old(values).len() <= u32::MAX,
        root.modulus@ >= 2,
        (old(values).len() as int) % (root.modulus@ as int) != 0,
        over_modulus(old(values)@, root.modulus@),
    ensures
        final(values).len() == old(values).len(),
        over_modulus(final(values)@, root.modulus@),
        fvals(final(values)@) == ifft_spec(fvals(old(values)@), root.value@ as int, root.modulus@ as int),
{
    let n = values.len();
    let ghost m = root.modulus@ as int;
    let ghost mn = root.modulus@;
    let ghost v0 = fvals(values@);
    proof {
        lemma_pow2_pos(n as nat);
    }
    let inv_root = root.clone().pow((n as u32) - 1);
    let ghost wi = pow(root.value@ as int, (n - 1) as nat) % m;
    assert(inv_root.value@ == wi);
    fft(values, &inv_root);
    let ghost t = fft_spec(v0, wi, m);
    let one = F::new(1, root.modulus.clone());
    let size = F::new(n as u64, root.modulus.clone());
    proof {
        lemma_small_mod(1, mn);
    }
    let inv_n = one.div(&size);
    let ghost c = inverse_value(((n as int) % m) as nat, mn);
    assert(inv_n.value@ == c) by {
        lemma_mod_bound(pow(size.value@ as int, (mn - 2) as nat), m);
        lemma_small_mod(c as nat, mn);
    }
    proof {
        if n == 1 {
            assert(reduce_mod(v0, m) =~= t);
        }
        assert forall|k: int| 0 <= k < n implies (#[trigger] values@[k]).value@ as int % m == t[k] by {
            if n >= 2 {
                assert(fvals(values@)[k] == t[k]);
                lemma_small_mod(values@[k].value@, mn);
            }
        }
    }
    let mut i: usize = 0;
    while i < n
        invariant
            values.len() == n,
            m == mn,
            mn == root.modulus@,
            m >= 2,
            i <= n,
            t.len() == n,
            over_modulus(values@, mn),
            inv_n.modulus@ == mn,
            inv_n.value@ == c,
            forall|k: int| i <= k < n ==> (#[trigger] values@[k]).value@ as int % m == t[k],
            forall|k: int| 0 <= k < i ==> (#[trigger] values@[k]).value@ as int == (t[k] * c) % m,
        decreases n - i,
    {
        let x = values[i].clone();
        proof {
            lemma_mul_mod_noop_left(x.value@ as int, c, m);
        }
        values[i] = x.mul(&inv_n);
        i += 1;
    }
    assert(fvals(values@) =~= ifft_spec(v0, root.value@ as int, m));
}

/// The forward transform of canonical values with a root `w` of order `n`
/// (`w^(n/2) = m - 1`) evaluates the polynomial with those coefficients:
/// entry `k` is `v[0] + v[1] w^k + v[2] w^(2k) + ...` mod `m`.
pub proof fn lemma_fft_evaluates(v: Seq<int>, w: int, m: int)
    requires
        is_pow2(v.len()),
        m > 1,
        forall|i: int| 0 <= i < v.len() ==> 0 <= #[trigger] v[i] < m,
        v.len() >= 2 ==> pow(w, (v.len() / 2) as nat) % m == m - 1,
    ensures
        forall|k: int| 0 <= k < v.len() ==> #[trigger] fft_spec(v, w, m)[k] == dft_at(v, w, k) % m,
{
    assert(reduce_mod(v, m) =~= v) by {
        assert forall|i: int| 0 <= i < v.len() implies reduce_mod(v, m)[i] == v[i] by {
            lemma_small_mod(v[i] as nat, m as nat);
        }
    }
    lemma_fft_is_dft(v, power_table(w, v.len(), m), w, m);
}

/// The inverse transform undoes the forward one: for canonical values, a
/// prime modulus that does not divide `n`, and a root `w` of order `n`, the
/// inverse transform of the forward transform gives the values back.
pub proof fn lemma_ifft_inverts_fft(v: Seq<int>, w: int, m: int)
    requires
        is_pow2(v.len()),
        is_prime(m),
        (v.len() as int) % m != 0,
        forall|i: int| 0 <= i < v.len() ==> 0 <= #[trigger] v[i] < m,
        v.len() >= 2 ==> pow(w, (v.len() / 2) as nat) % m == m - 1,
    ensures
        ifft_spec(fft_spec(v, w, m), w, m) == v,
{
    let n = v.len();
    let r = power_table(w, n, m);
    lemma_pow2_pos(n);
    assert(reduce_mod(v, m) =~= v) by {
        assert forall|i: int| 0 <= i < n implies reduce_mod(v, m)[i] == v[i] by {
            lemma_small_mod(v[i] as nat, m as nat);
        }
    }
    assert(is_root_table(r, w, m));
    lemma_fft_is_dft(v, r, w, m);
    let x = transform::fft(v, r, m);
    assert(reduce_mod(x, m) =~= x) by {
        assert forall|i: int| 0 <= i < n implies reduce_mod(x, m)[i] == x[i] by {
            lemma_mod_twice(dft_at(v, w, i), m);
        }
    }
    let u = pow(w, (n - 1) as nat) % m;
    lemma_inverse_root_table(r, w, m);
    assert(power_table(u, n, m) =~= inverse_roots(r)) by {
        assert forall|i: int| 0 <= i < n implies power_table(u, n, m)[i] == inverse_roots(r)[i] by {
            lemma_pow_mod_noop(pow(w, (n - 1) as nat), i as nat, m);
            lemma_pow_multiplies(w, (n - 1) as nat, i as nat);
            assert(inverse_roots(r)[i] == pow(pow(w, (n - 1) as nat), i as nat) % m);
        }
    }
    let nm = ((n as int) % m) as nat;
    let c = inverse_value(nm, m as nat);
    assert((n * c) % m == 1) by {
        lemma_mod_bound(n as int, m);
        lemma_small_mod(nm, m as nat);
        lemma_fermat_prime(m, nm as int);
        lemma_mod_twice(n as int, m);
        lemma_pow1(nm as int);
        lemma_pow_adds(nm as int, 1, (m - 2) as nat);
        lemma_mul_mod_noop_right(nm as int, pow(nm as int, (m - 2) as nat), m);
        lemma_mul_mod_noop_left(n as int, c, m);
    }
    lemma_fft_inverse(v, r, w, m, c);
    assert(fft_spec(x, u, m) == transform::fft(x, inverse_roots(r), m));
}


/// The values of a sequence of big numbers.
pub open spec fn nat_vals(s: Seq<BigNat>) -> Seq<nat> {
    s.map_values(|x: BigNat| x@)
}

/// `out` holds primes dividing `m`, and (for `m >= 1`) every prime dividing `m`.
pub open spec fn lists_prime_factors(out: Seq<nat>, m: int) -> bool {
    &&& forall|i: int| 0 <= i < out.len() ==> is_prime(#[trigger] out[i] as int) && m % (out[i] as int) == 0
    &&& m >= 1 ==> forall|q: int| #[trigger] is_prime(q) && m % q == 0 ==> out.contains(q as nat)
}

/// The distinct primes dividing `m`, by trial division up to the square root
/// of what is left, the rest (above 1) being the last prime.
fn prime_factors(m: &BigNat) -> (out: Vec<BigNat>)
    ensures
        lists_prime_factors(nat_vals(out@), m@ as int),
{
    let ghost m0 = m@ as int;
    let one = BigNat::from_u64(1);
    let zero = BigNat::from_u64(0);
    let mut d = BigNat::from_u64(2);
    let mut factors: Vec<BigNat> = Vec::new();
    let mut tmp = m.clone();
    loop
        invariant_except_break
            one@ == 1,
            zero@ == 0,
            2 <= d@,
            m0 >= 1 ==> tmp@ >= 1,
            m0 == 0 ==> tmp@ == 0,
            tmp@ >= 1 ==> m0 % (tmp@ as int) == 0,
            forall|x: int| 2 <= x < d@ ==> #[trigger] ((tmp@ as int) % x) != 0 || tmp@ == 0,
            forall|i: int| 0 <= i < factors.len() ==> (#[trigger] factors@[i])@ < d@,
            forall|i: int|
                0 <= i < factors.len() ==> is_prime((#[trigger] factors@[i])@ as int) && m0 % (
                factors@[i]@ as int) == 0,
            m0 >= 1 ==> forall|pr: int|
                #[trigger] is_prime(pr) && m0 % pr == 0 ==> (pr < d@ ==> nat_vals(factors@).contains(
                    pr as nat,
                )) && (pr >= d@ ==> (tmp@ as int) % pr == 0),
        ensures
            2 <= d@,
            tmp@ < d@ * d@,
            m0 >= 1 ==> tmp@ >= 1,
            m0 == 0 ==> tmp@ == 0,
            tmp@ >= 1 ==> m0 % (tmp@ as int) == 0,
            forall|x: int| 2 <= x < d@ ==> #[trigger] ((tmp@ as int) % x) != 0 || tmp@ == 0,
            forall|i: int| 0 <= i < factors.len() ==> (#[trigger] factors@[i])@ < d@,
            forall|i: int|
                0 <= i < factors.len() ==> is_prime((#[trigger] factors@[i])@ as int) && m0 % (
                factors@[i]@ as int) == 0,
            m0 >= 1 ==> forall|pr: int|
                #[trigger] is_prime(pr) && m0 % pr == 0 ==> (pr < d@ ==> nat_vals(factors@).contains(
                    pr as nat,
                )) && (pr >= d@ ==> (tmp@ as int) % pr == 0),
        decreases (if d@ <= tmp@ + 1 {
            tmp@ + 1 - d@
        } else {
            0
        }),
    {
        let sq = big_mul(&d, &d);
        if !big_le(&sq, &tmp) {
            break;
        }
        let ghost q = d@ as int;
        let ghost m_start = tmp@ as int;
        let ghost out_prev = nat_vals(factors@);
        assert(q <= m_start) by (nonlinear_arith)
            requires
                q * q <= m_start,
                q >= 2,
        ;
        let r = big_rem(&tmp, &d);
        if big_eq(&r, &zero) {
            proof {
                assert forall|x: int| 2 <= x < q implies #[trigger] (q % x) != 0 by {
                    if q % x == 0 {
                        lemma_divides_trans(x, q, m_start);
                    }
                }
                lemma_divides_trans(q, m_start, m0);
            }
            factors.push(d.clone());
            let ghost m_before = tmp@ as int;
            loop
                invariant_except_break
                    zero@ == 0,
                    d@ == q,
                    2 <= q,
                    tmp@ >= 1,
                    m_before % (tmp@ as int) == 0,
                    m_before >= 1,
                    tmp@ <= m_before,
                    m0 % m_before == 0,
                    forall|x: int| 2 <= x < q ==> #[trigger] ((tmp@ as int) % x) != 0,
                    m0 >= 1 ==> forall|pr: int|
                        #[trigger] is_prime(pr) && m0 % pr == 0 && pr > q ==> (tmp@ as int) % pr == 0,
                ensures
                    d@ == q,
                    tmp@ >= 1,
                    m_before % (tmp@ as int) == 0,
                    tmp@ <= m_before,
                    forall|x: int| 2 <= x < q ==> #[trigger] ((tmp@ as int) % x) != 0,
                    (tmp@ as int) % q != 0,
                    m0 >= 1 ==> forall|pr: int|
                        #[trigger] is_prime(pr) && m0 % pr == 0 && pr > q ==> (tmp@ as int) % pr == 0,
                decreases tmp@,
            {
                let r2 = big_rem(&tmp, &d);
                if !big_eq(&r2, &zero) {
                    break;
                }
                let ghost m_old = tmp@ as int;
                proof {
                    lemma_fundamental_div_mod(m_old, q);
                }
                tmp = big_div(&tmp, &d);
                proof {
                    let k = tmp@ as int;
                    assert(m_old == q * k);
                    if k <= 0 {
                        lemma_mul_inequality(k, 0, q);
                        lemma_mul_is_commutative(k, q);
                    }
                    lemma_mod_multiples_basic(q, k);
                    lemma_mul_is_commutative(q, k);
                    assert(m_old % k == 0);
                    lemma_divides_trans(k, m_old, m_before);
                    assert forall|x: int| 2 <= x < q implies #[trigger] ((tmp@ as int) % x) != 0 by {
                        if k % x == 0 {
                            lemma_divides_trans(x, k, m_old);
                        }
                    }
                    if m0 >= 1 {
                        assert forall|pr: int| #[trigger] is_prime(pr) && m0 % pr == 0 && pr > q
                            implies (tmp@ as int) % pr == 0 by {
                            lemma_euclid(q, k, pr);
                            if q % pr == 0 {
                                lemma_divisor_le(pr, q);
                            }
                        }
                    }
                    lemma_mul_inequality(1, q, k);
                    lemma_mul_inequality(2, q, k);
                }
            }
            proof {
                lemma_divides_trans(tmp@ as int, m_before, m0);
            }
        }
        assert(tmp@ <= m_start);
        proof {
            assert forall|x: int| 2 <= x < q + 1 implies #[trigger] ((tmp@ as int) % x) != 0 || tmp@ == 0 by {
            }
            if m0 >= 1 {
                assert forall|pr: int| #[trigger] is_prime(pr) && m0 % pr == 0 implies (pr < q + 1
                    ==> nat_vals(factors@).contains(pr as nat)) && (pr >= q + 1 ==> (tmp@ as int) % pr
                    == 0) by {
                    if pr == q {
                        assert(m_start % pr == 0);
                        assert(nat_vals(factors@)[factors.len() - 1] == q);
                    } else if pr < q {
                        assert(out_prev.contains(pr as nat));
                        let k = choose|k: int| 0 <= k < out_prev.len() && out_prev[k] == pr as nat;
                        assert(nat_vals(factors@)[k] == pr as nat);
                    } else {
                        assert(m_start % pr == 0);
                    }
                }
            }
        }
        d = big_add(&d, &one);
    }
    let ghost q = d@ as int;
    let ghost out_before = nat_vals(factors@);
    if !big_le(&tmp, &one) {
        proof {
            lemma_no_small_divisor_prime(tmp@ as int, q);
            lemma_divides_trans(tmp@ as int, tmp@ as int, m0);
        }
        factors.push(tmp);
    }
    proof {
        if m0 >= 1 {
            assert forall|pr: int| #[trigger] is_prime(pr) && m0 % pr == 0 implies nat_vals(
                factors@,
            ).contains(pr as nat) by {
                if pr < q {
                    assert(out_before.contains(pr as nat));
                    let k = choose|k: int| 0 <= k < out_before.len() && out_before[k] == pr as nat;
                    assert(nat_vals(factors@)[k] == pr as nat);
                } else {
                    let t = out_before.len();
                    if t < factors.len() {
                        let last = factors@[t as int]@ as int;
                        assert(last % pr == 0);
                        lemma_divisor_le(pr, last);
                        if pr < last {
                            assert(last % pr != 0);
                        }
                        assert(nat_vals(factors@)[t as int] == pr as nat);
                    } else {
                        lemma_divisor_le(pr, 1);
                    }
                }
            }
        }
    }
    factors
}

/// Whether `g` passes the generator test for `p`: no `g^((p-1)/q) mod p` is
/// 1 for a prime `q` dividing `p - 1`.
fn is_generator(g: &BigNat, p: &BigNat) -> (r: bool)
    requires
        p@ >= 1,
    ensures
        r == passes_generator_test(g@ as int, p@ as int),
{
    let one = BigNat::from_u64(1);
    let phi = big_sub(p, &one);
    let factors = prime_factors(&phi);
    let mut k: usize = 0;
    while k < factors.len()
        invariant
            one@ == 1,
            phi@ == p@ - 1,
            p@ >= 1,
            lists_prime_factors(nat_vals(factors@), phi@ as int),
            k <= factors.len(),
            forall|i: int|
                0 <= i < k ==> pow(g@ as int, ((phi@ as int) / (#[trigger] factors@[i]@ as int)) as nat)
                    % (p@ as int) != 1,
        decreases factors.len() - k,
    {
        let q = &factors[k];
        assert(is_prime(nat_vals(factors@)[k as int] as int));
        let e = big_div(&phi, q);
        let x = big_modpow(g, &e, p);
        if big_eq(&x, &one) {
            assert(!passes_generator_test(g@ as int, p@ as int)) by {
                assert(nat_vals(factors@)[k as int] == q@);
                let qi = q@ as int;
                assert(is_prime(qi) && (p@ as int - 1) % qi == 0);
            }
            return false;
        }
        k += 1;
    }
    proof {
        assert forall|q: int| #[trigger] is_prime(q) && (p@ as int - 1) % q == 0 implies pow(
            g@ as int,
            ((p@ as int - 1) / q) as nat,
        ) % (p@ as int) != 1 by {
            if phi@ >= 1 {
                assert(nat_vals(factors@).contains(q as nat));
                let i = choose|i: int| 0 <= i < factors.len() && nat_vals(factors@)[i] == q as nat;
                assert(factors@[i]@ == q);
            } else {
                assert(p@ == 1);
                lemma_mod_self_0(1);
                lemma_mod_bound(pow(g@ as int, ((p@ as int - 1) / q) as nat), 1);
            }
        }
    }
    true
}

/// Some `g >= 2` passes the generator test for `p`; this holds for every
/// `p >= 1` (see `lemma_generator_exists`), and for a prime `p` any
/// generator of its multiplicative group passes.
pub open spec fn generator_exists(p: int) -> bool {
    exists|g: int| g >= 2 && #[trigger] passes_generator_test(g, p)
}

/// The search for a generator ends: `p` itself passes the test when
/// `p >= 2` (its powers are 0 mod `p`), and every number does when `p = 1`.
proof fn lemma_generator_exists(p: int)
    requires
        p >= 1,
    ensures
        generator_exists(p),
{
    if p >= 2 {
        assert forall|q: int| #[trigger] is_prime(q) && (p - 1) % q == 0 implies pow(p, ((p - 1) / q) as nat) % p
            != 1 by {
            let e = (p - 1) / q;
            lemma_fundamental_div_mod(p - 1, q);
            assert(e >= 1) by {
                lemma_div_pos_is_pos(p - 1, q);
                if e == 0 {
                    lemma_mul_basics(q);
                }
            }
            lemma_pow_adds(p, 1, (e - 1) as nat);
            lemma_pow1(p);
            lemma_mod_multiples_basic(pow(p, (e - 1) as nat), p);
            lemma_mul_is_commutative(p, pow(p, (e - 1) as nat));
        }
        assert(passes_generator_test(p, p));
    } else {
        assert forall|q: int| #[trigger] is_prime(q) && (p - 1) % q == 0 implies pow(2, ((p - 1) / q) as nat) % p
            != 1 by {
            lemma_pow0(2);
        }
        assert(passes_generator_test(2, p));
    }
}

/// `g` is the first number from 2 on that passes the generator test.
pub open spec fn is_first_generator(g: int, p: int) -> bool {
    &&& g >= 2
    &&& passes_generator_test(g, p)
    &&& forall|h: int| 2 <= h < g ==> !#[trigger] passes_generator_test(h, p)
}

/// The first number from 2 on that passes the generator test for `p`.
pub open spec fn first_generator(p: int) -> int {
    choose|g: int| is_first_generator(g, p)
}

/// The first generator is unique, so `first_generator` names it.
proof fn lemma_first_generator_unique(g: int, p: int)
    requires
        is_first_generator(g, p),
    ensures
        first_generator(p) == g,
{
    let h = first_generator(p);
    assert(is_first_generator(h, p));
    if h < g {
        assert(!passes_generator_test(h, p));
    }
    if g < h {
        assert(!passes_generator_test(g, p));
    }
}

/// The root of unity of the domain of size `n` mod `p`: the first generator
/// `g` (its lowest 64 bits, taken mod `p`) raised to `(p-1)/n`, mod `p`.
pub open spec fn domain_root(n: nat, p: nat) -> int {
    let g = (first_generator(p as int) % 0x1_0000_0000_0000_0000) % (p as int);
    pow(g, ((p - 1) as nat / n) as nat) % (p as int)
}

/// The `n` powers `omega^0, ..., omega^(n-1)` mod `p` of the `n`-th root of
/// unity `omega = g^((p-1)/n)`, where `g` is the first number from 2 on that
/// passes the generator test (the search stops by `max(p, 2)`). The size
/// is a power of two.
pub fn roots_of_unity_domain(n: usize, modulus: BigNat) -> (domain: Vec<F>)
    requires
        is_pow2(n as nat),
        n <= u32::MAX,
        modulus@ >= 1,
    ensures
        domain.len() == n,
        forall|i: int|
            0 <= i < n ==> (#[trigger] domain@[i]).modulus@ == modulus@ && domain@[i].value@ == pow(
                domain_root(n as nat, modulus@),
                i as nat,
            ) % (modulus@ as int),
{
    let ghost p = modulus@ as int;
    let one = BigNat::from_u64(1);
    let mut g_int = BigNat::from_u64(2);
    proof {
        lemma_generator_exists(p);
    }
    let ghost w = choose|g: int| g >= 2 && passes_generator_test(g, p);
    loop
        invariant_except_break
            one@ == 1,
            p == modulus@,
            p >= 1,
            w >= 2 && passes_generator_test(w, p),
            2 <= g_int@ <= w,
            forall|h: int| 2 <= h < g_int@ ==> !#[trigger] passes_generator_test(h, p),
        ensures
            is_first_generator(g_int@ as int, p),
        decreases w - g_int@,
    {
        if is_generator(&g_int, &modulus) {
            break;
        }
        g_int = big_add(&g_int, &one);
    }
    proof {
        lemma_first_generator_unique(g_int@ as int, p);
    }
    let low = big_low_u64(&g_int);
    let g = F::new(low, modulus.clone());
    let phi = big_sub(&modulus, &one);
    proof {
        lemma_pow2_pos(n as nat);
    }
    let size = BigNat::from_u64(n as u64);
    let exp = big_div(&phi, &size);
    let omega_value = big_modpow(&g.value, &exp, &modulus);
    let omega = F { value: omega_value, modulus: modulus.clone() };
    let ghost om = domain_root(n as nat, modulus@);
    assert(omega.value@ == om);
    let mut domain: Vec<F> = Vec::new();
    let mut cur = F::new(1, modulus.clone());
    proof {
        reveal(pow);
    }
    let mut i: usize = 0;
    while i < n
        invariant
            p == modulus@,
            p >= 1,
            omega.value@ == om,
            omega.modulus@ == modulus@,
            cur.modulus@ == modulus@,
            domain.len() == i,
            i <= n,
            cur.value@ == pow(om, i as nat) % p,
            forall|j: int|
                0 <= j < i ==> (#[trigger] domain@[j]).modulus@ == modulus@ && domain@[j].value@ == pow(
                    om,
                    j as nat,
                ) % p,
        decreases n - i,
    {
        domain.push(cur.clone());
        proof {
            reveal(pow);
            lemma_pow_adds(om, i as nat, 1);
            lemma_pow1(om);
            lemma_mul_mod_noop_left(pow(om, i as nat), om, p);
        }
        cur = cur.mul(&omega);
        i += 1;
    }
    domain
}

/// The only square roots of 1 modulo a prime are 1 and `p - 1`.
pub(crate) proof fn lemma_square_root_of_one(x: int, p: int)
    requires
        is_prime(p),
        0 <= x < p,
        (x * x) % p == 1,
    ensures
        x == 1 || x == p - 1,
{
    if x == 0 {
        lemma_small_mod(0, p as nat);
    } else {
        assert((x - 1) * (x + 1) == x * x - 1) by (nonlinear_arith);
        lemma_fundamental_div_mod(x * x, p);
        lemma_mod_multiples_vanish((x * x) / p, 0, p);
        assert(((x - 1) * (x + 1)) % p == 0) by {
            assert((x - 1) * (x + 1) == p * ((x * x) / p));
            lemma_mod_multiples_basic((x * x) / p, p);
            lemma_mul_is_commutative(p, (x * x) / p);
        }
        lemma_euclid(x - 1, x + 1, p);
        if (x - 1) % p == 0 {
            lemma_small_mod((x - 1) as nat, p as nat);
        } else {
            if x + 1 < p {
                lemma_small_mod((x + 1) as nat, p as nat);
            }
        }
    }
}

/// The domain's root has order `n`: for a prime `p` whose first generator
/// is a residue below `2^64`, and `n` (a power of two, at least 2) dividing
/// `p - 1`, `domain_root(n, p)^(n/2) = p - 1` mod `p`; so the transform laws
/// above apply to it.
pub proof fn lemma_domain_root_order(n: nat, p: int)
    requires
        is_pow2(n),
        n >= 2,
        is_prime(p),
        (p - 1) % (n as int) == 0,
        first_generator(p) < p,
        first_generator(p) < 0x1_0000_0000_0000_0000,
    ensures
        pow(domain_root(n, p as nat), n / 2) % p == p - 1,
{
    let g0 = first_generator(p);
    assert(is_first_generator(g0, p)) by {
        // the least number from 2 on that passes exists
        lemma_generator_exists(p);
        let w = choose|w: int| w >= 2 && passes_generator_test(w, p);
        lemma_first_generator_exists(w, p);
    }
    lemma_small_mod(g0 as nat, p as nat);
    lemma_fermat_prime(p, g0);
    lemma_small_mod(g0 as nat, 0x1_0000_0000_0000_0000);
    let gr = g0 % p;
    let q = (p - 1) / (n as int);
    lemma_pow2_even(n);
    lemma_fundamental_div_mod(p - 1, n as int);
    assert(q * n == p - 1) by {
        lemma_mul_is_commutative(q, n as int);
    }
    lemma_div_pos_is_pos(p - 1, n as int);
    let h = (p - 1) / 2;
    assert(q * (n / 2) == h) by {
        assert(q * (n / 2) * 2 == q * n) by {
            lemma_mul_is_associative(q, (n / 2) as int, 2);
        }
    }
    // x = g^((p-1)/2) squares to 1 and is not 1
    let x = pow(g0, h as nat) % p;
    assert(2 * h == p - 1) by {
        assert(q * n == 2 * (q * (n / 2))) by {
            lemma_mul_is_associative(q, (n / 2) as int, 2);
            lemma_mul_is_commutative(q * (n / 2), 2);
        }
    }
    assert(is_prime(2int));
    assert((p - 1) % 2 == 0);
    assert(x != 1);
    lemma_pow_adds(g0, h as nat, h as nat);
    lemma_mul_mod_noop(pow(g0, h as nat), pow(g0, h as nat), p);
    lemma_mod_bound(pow(g0, h as nat), p);
    lemma_square_root_of_one(x, p);
    // domain_root(n, p)^(n/2) = (g0 mod p)^(q (n/2)) = g0^h mod p
    lemma_pow_mod_noop(g0, q as nat, p);
    lemma_pow_mod_noop(pow(gr, q as nat), (n / 2) as nat, p);
    lemma_pow_multiplies(gr, q as nat, (n / 2) as nat);
    lemma_pow_mod_noop(g0, h as nat, p);
    assert(domain_root(n, p as nat) == pow(gr, q as nat) % p);
    assert(pow(gr, q as nat) % p == pow(g0, q as nat) % p);
    lemma_pow_mod_noop(pow(g0, q as nat), (n / 2) as nat, p);
    lemma_pow_multiplies(g0, q as nat, (n / 2) as nat);
}

/// Some number from 2 on passes the generator test only if a first one does.
proof fn lemma_first_generator_exists(w: int, p: int)
    requires
        w >= 2,
        passes_generator_test(w, p),
    ensures
        is_first_generator(first_generator(p), p),
    decreases w,
{
    if forall|h: int| 2 <= h < w ==> !#[trigger] passes_generator_test(h, p) {
        assert(is_first_generator(w, p));
    } else {
        let h = choose|h: int| 2 <= h < w && passes_generator_test(h, p);
        lemma_first_generator_exists(h, p);
    }
}

} // verus!
