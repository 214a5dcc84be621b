//! In-place number-theoretic transform over `u64` BabyBear elements, driven by
//! a root of unity `omega`: bit-reversal by index swaps, then Cooley-Tukey
//! butterflies with twiddles built up by repeated multiplication.

use vstd::prelude::*;
use vstd::arithmetic::div_mod::*;
use vstd::arithmetic::mul::*;
use vstd::arithmetic::power::*;
use vstd::arithmetic::power2::{lemma_pow2_unfold, pow2};
use crate::babybear::{reduce_wide_spec, sub_value, BabyBear, BABYBEAR_PRIME};
use crate::ntt::bitrev::{
    bit_reverse, lemma_bit_reversed_index, lemma_pow2_is_pow2, lemma_rev_bits_bound,
    lemma_rev_involution, rev_bits,
};
use crate::babybear::lemma_root_of_unity_order;
use crate::ntt::babybear_roots::lemma_babybear_pow2_fermat;
use crate::ntt::cpu::lemma_block_position;
use crate::ntt::dft::{
    dft_at, is_root_table, lemma_fft_inverse, lemma_fft_inverse_first, lemma_fft_is_dft, lemma_inverse_root_table,
    lemma_powers_distinct,
};
use crate::ntt::transform::{
    butterfly, fft, is_pow2, lemma_bit_reversed_is_partial, lemma_bit_reversed_len, lemma_partial_full, lemma_pow2_between,
    lemma_pow2_divides, lemma_pow2_even, lemma_pow2_pos, lemma_stage_step, partial_fft, stage,
    inverse_roots, scale_mod,
};

verus! {

/// The values of the elements as integers.
pub open spec fn values_of(s: Seq<BabyBear>) -> Seq<int> {
    s.map_values(|x: BabyBear| x.value as int)
}

/// Every integer reduced mod p.
pub open spec fn reduce_all(v: Seq<int>) -> Seq<int> {
    v.map_values(|x: int| x % (BABYBEAR_PRIME as int))
}

/// Every element is in canonical form.
pub open spec fn all_canonical(s: Seq<BabyBear>) -> bool {
    forall|i: int| 0 <= i < s.len() ==> #[trigger] s[i].value < BABYBEAR_PRIME
}

/// `w^0, w^1, ..., w^(n-1)`, each reduced mod p.
pub open spec fn powers(w: int, n: nat) -> Seq<int> {
    Seq::new(n, |i: int| pow(w, i as nat) % (BABYBEAR_PRIME as int))
}

/// The transform of `v` (taken mod p) with the powers of `w` as twiddles.
pub open spec fn ntt_spec(v: Seq<int>, w: int) -> Seq<int> {
    fft(reduce_all(v), powers(w, v.len()), BABYBEAR_PRIME as int)
}

/// The inverse transform: the transform with `w^(n-1) mod p`, every entry
/// then multiplied by `n^(p-2) mod p` (with `n` taken mod p).
pub open spec fn intt_spec(v: Seq<int>, w: int) -> Seq<int> {
    let p = BABYBEAR_PRIME as int;
    let n = v.len() as int;
    let t = ntt_spec(v, pow(w, (n - 1) as nat) % p);
    Seq::new(v.len(), |i: int| (t[i] * (pow(n % p, (p - 2) as nat) % p)) % p)
}

/// The exponent `k` with `2^k == n`, for a power of two `n`.
pub(crate) fn log2_exact(n: usize) -> (k: usize)
    requires
        is_pow2(n as nat),
    ensures
        pow2(k as nat) == n,
{
    let mut m = n;
    let mut k: usize = 0;
    proof {
        vstd::arithmetic::power2::lemma2_to64();
    }
    while m > 1
        invariant
            is_pow2(m as nat),
            n == m * pow2(k as nat),
            k < pow2(k as nat),
            n <= usize::MAX,
        decreases m,
    {
        proof {
            lemma_pow2_even(m as nat);
            lemma_pow2_unfold((k + 1) as nat);
            lemma_pow2_pos(m as nat);
            lemma_mul_inequality(1, m as int, pow2(k as nat) as int);
            lemma_mul_is_associative((m / 2) as int, 2, pow2(k as nat) as int);
        }
        m = m / 2;
        k += 1;
    }
    proof {
        lemma_pow2_pos(m as nat);
        lemma_mul_basics(pow2(k as nat) as int);
    }
    k
}

/// The two outputs of one butterfly on `a` and `hi` with twiddle `w`, taken
/// mod p, are the stage's entries on the residues; both stay at most
/// `u64::MAX - p`, and below p when `a` is.
proof fn lemma_butterfly_values(a: u64, hi: u64, w: int)
    requires
        a + BABYBEAR_PRIME <= u64::MAX,
        0 <= w < BABYBEAR_PRIME,
    ensures
        ({
            let p = BABYBEAR_PRIME as int;
            let v = ((hi * w) % p) as u64;
            let s = reduce_wide_spec((a + v) as u64);
            let d = sub_value(a, v);
            &&& (s as int) % p == ((a as int) % p + (w * ((hi as int) % p)) % p) % p
            &&& (d as int) % p == ((a as int) % p + p - (w * ((hi as int) % p)) % p) % p
            &&& s + BABYBEAR_PRIME <= u64::MAX
            &&& d + BABYBEAR_PRIME <= u64::MAX
            &&& a < p ==> s < p && d < p
        }),
{
    let p = BABYBEAR_PRIME as int;
    let vv = (hi * w) % p;
    assert(vv == (w * ((hi as int) % p)) % p) by {
        lemma_mul_mod_noop_right(w, hi as int, p);
        lemma_mul_is_commutative(w, hi as int);
    }
    let v = vv as u64;
    let sum = a + vv;
    lemma_add_mod_noop(a as int, vv, p);
    lemma_mod_twice(vv, p);
    if sum >= 2 * p {
        lemma_mod_sub_multiples_vanish(sum, p);
        lemma_mod_sub_multiples_vanish(sum - p, p);
    } else if sum >= p {
        lemma_mod_sub_multiples_vanish(sum, p);
    }
    let t = (a as int) % p + p - vv;
    lemma_add_mod_noop(a as int, p - vv, p);
    lemma_mod_twice(p - vv, p);
    if a >= v {
        lemma_mod_add_multiples_vanish(a - vv, p);
        lemma_add_mod_noop(a as int, p - vv, p);
    }
    lemma_mod_bound(t, p);
}

/// Forward transform in place: the bit-reversal permutation, then one
/// butterfly stage per block size, with the powers of `omega` as twiddles.
/// The result is the transform of the input taken mod p; canonical inputs
/// give canonical outputs, so then it is the transform itself.
pub fn ntt(values: &mut [BabyBear], omega: BabyBear)
    requires
        is_pow2(old(values).len() as nat),
        forall|i: int|
            0 <= i < old(values).len() / 2 ==> old(values)[i].value + BABYBEAR_PRIME <= u64::MAX,
    ensures
        final(values).len() == old(values).len(),
        reduce_all(values_of(final(values)@)) == ntt_spec(values_of(old(values)@), omega.value as int),
        all_canonical(old(values)@) ==> all_canonical(final(values)@),
{
    let n = values.len();
    let ghost p = BABYBEAR_PRIME as int;
    let ghost v0 = values@;
    let ghost vm = reduce_all(values_of(v0));
    let ghost rs = powers(omega.value as int, n as nat);
    let ghost canon = all_canonical(v0);
    let log_n = log2_exact(n);
    let ghost l = log_n as nat;
    let mut i: usize = 0;
    while i < n
        invariant
            values.len() == n,
            v0.len() == n,
            n == pow2(l),
            l == log_n,
            i <= n,
            forall|k: int|
                0 <= k < n && (k < i || 0 <= rev_bits(k, l) < i) ==> #[trigger] values[k]
                    == v0[rev_bits(k, l)],
            forall|k: int|
                0 <= k < n && !(k < i || 0 <= rev_bits(k, l) < i) ==> #[trigger] values[k] == v0[k],
        decreases n - i,
    {
        let j = bit_reverse(i, log_n);
        proof {
            lemma_rev_bits_bound(i as int, l);
            lemma_rev_involution(i as int, l);
        }
        let ghost before = values@;
        if i < j {
            let t = values[i];
            values[i] = values[j];
            values[j] = t;
        }
        proof {
            assert forall|k: int| 0 <= k < n && (k < i + 1 || 0 <= rev_bits(k, l) < i + 1) implies #[trigger] values[k]
                == v0[rev_bits(k, l)] by {
                lemma_rev_involution(k, l);
                lemma_rev_bits_bound(k, l);
                if k == i || k == j {
                } else {
                    assert(values[k] == before[k]);
                }
            }
            assert forall|k: int| 0 <= k < n && !(k < i + 1 || 0 <= rev_bits(k, l) < i + 1) implies #[trigger] values[k]
                == v0[k] by {
                lemma_rev_involution(k, l);
                assert(values[k] == before[k]);
            }
        }
        i += 1;
    }
    proof {
        lemma_bit_reversed_index(vm, l);
        lemma_bit_reversed_is_partial(vm, rs, p);
        lemma_bit_reversed_len(vm);
        assert(reduce_all(values_of(values@)) =~= partial_fft(vm, rs, p, 1)) by {
            assert forall|k: int| 0 <= k < n implies reduce_all(values_of(values@))[k] == partial_fft(
                vm,
                rs,
                p,
                1,
            )[k] by {
                lemma_rev_bits_bound(k, l);
                assert(values[k] == v0[rev_bits(k, l)]);
            }
        }
        vstd::arithmetic::power2::lemma2_to64();
        if n >= 2 {
            lemma_pow2_unfold(l);
            assert forall|k: int| 0 <= k < n && k % 2 == 0 implies #[trigger] values[k].value
                + BABYBEAR_PRIME <= u64::MAX by {
                lemma_rev_bits_bound(k / 2, (l - 1) as nat);
                assert((k % 2) * pow2((l - 1) as nat) == 0);
                assert(rev_bits(k, l) == rev_bits(k / 2, (l - 1) as nat));
                assert(values[k] == v0[rev_bits(k, l)]);
            }
        }
        if canon {
            assert forall|k: int| 0 <= k < n implies #[trigger] values[k].value < BABYBEAR_PRIME by {
                lemma_rev_involution(k, l);
                lemma_rev_bits_bound(k, l);
            }
        }
        lemma_pow2_is_pow2(l);
        assert(is_pow2(2)) by {
            reveal_with_fuel(is_pow2, 2);
        }
    }
    let mut len: usize = 2;
    while len <= n
        invariant_except_break
            values.len() == n,
            vm.len() == n,
            rs.len() == n,
            rs == powers(omega.value as int, n as nat),
            p == BABYBEAR_PRIME,
            is_pow2(n as nat),
            2 <= len,
            is_pow2(len as nat),
            n >= 2 ==> len <= n,
            reduce_all(values_of(values@)) == partial_fft(vm, rs, p, len as int / 2),
            n >= 2 ==> forall|k: int|
                0 <= k < n && k % (len as int) < len / 2 ==> #[trigger] values[k].value
                    + BABYBEAR_PRIME <= u64::MAX,
            canon ==> all_canonical(values@),
        ensures
            values.len() == n,
            reduce_all(values_of(values@)) == fft(vm, rs, p),
            canon ==> all_canonical(values@),
        decreases n - len,
    {
        let half = len / 2;
        let stride = n / len;
        proof {
            lemma_pow2_divides(len as nat, n as nat);
            lemma_pow2_even(len as nat);
        }
        let w_len = omega.pow(stride as u64);
        let ghost c0 = values@;
        let ghost s0 = reduce_all(values_of(c0));
        let ghost target = stage(s0, rs, p, len as int);
        assert(s0.len() as int / (len as int) == stride);
        let mut start: usize = 0;
        let ghost mut q: int = 0;
        while start < n
            invariant
                values.len() == n,
                c0.len() == n,
                s0 == reduce_all(values_of(c0)),
                rs == powers(omega.value as int, n as nat),
                rs.len() == n,
                p == BABYBEAR_PRIME,
                target == stage(s0, rs, p, len as int),
                s0.len() as int / (len as int) == stride,
                w_len.value == pow(omega.value as int, stride as nat) % p,
                half == len / 2,
                stride == n / len,
                len >= 2,
                len % 2 == 0,
                n % len == 0,
                forall|k: int|
                    0 <= k < n && k % (len as int) < half ==> #[trigger] c0[k].value
                        + BABYBEAR_PRIME <= u64::MAX,
                canon ==> all_canonical(c0),
                0 <= q,
                start == q * len,
                start <= n,
                forall|k: int|
                    0 <= k < start ==> (#[trigger] values[k].value as int) % p == target[k]
                        && values[k].value + BABYBEAR_PRIME <= u64::MAX && (canon ==> values[k].value
                        < BABYBEAR_PRIME),
                forall|k: int| start <= k < n ==> #[trigger] values[k] == c0[k],
            decreases n - start,
        {
            let mut w = BabyBear::one();
            let mut j: usize = 0;
            proof {
                lemma_block_position(q, len as int, 0, n as int);
                lemma_pow0(omega.value as int);
                lemma_small_mod(1, BABYBEAR_PRIME as nat);
            }
            while j < half
                invariant
                    values.len() == n,
                    c0.len() == n,
                    s0 == reduce_all(values_of(c0)),
                    rs == powers(omega.value as int, n as nat),
                    rs.len() == n,
                    p == BABYBEAR_PRIME,
                    target == stage(s0, rs, p, len as int),
                    s0.len() as int / (len as int) == stride,
                    w_len.value == pow(omega.value as int, stride as nat) % p,
                    w.value == pow(omega.value as int, (j * stride) as nat) % p,
                    half == len / 2,
                    stride == n / len,
                    len >= 2,
                    len % 2 == 0,
                    n % len == 0,
                    forall|k: int|
                        0 <= k < n && k % (len as int) < half ==> #[trigger] c0[k].value
                            + BABYBEAR_PRIME <= u64::MAX,
                    canon ==> all_canonical(c0),
                    0 <= q,
                    start == q * len,
                    start + len <= n,
                    0 <= j <= half,
                    forall|k: int|
                        (0 <= k < start + j || start + half <= k < start + half + j)
                            ==> (#[trigger] values[k].value as int) % p == target[k] && values[k].value
                            + BABYBEAR_PRIME <= u64::MAX && (canon ==> values[k].value
                            < BABYBEAR_PRIME),
                    forall|k: int|
                        (start + j <= k < start + half) || (start + half + j <= k < n)
                            ==> #[trigger] values[k] == c0[k],
                decreases half - j,
            {
                proof {
                    lemma_block_position(q, len as int, j as int, n as int);
                }
                let ghost i0 = (start + j) as int;
                let ghost i1 = (start + j + half) as int;
                let u = values[start + j];
                let hi = values[start + j + half];
                assert(u == c0[i0]);
                assert(hi == c0[i1]);
                assert(i0 % (len as int) == j);
                assert(u.value + BABYBEAR_PRIME <= u64::MAX);
                let v = hi * w;
                assert(rs[(j * stride) as int] == w.value);
                proof {
                    lemma_butterfly_values(u.value, hi.value, w.value as int);
                    lemma_mul_is_commutative(hi.value as int, w.value as int);
                    assert(target[i0] == butterfly(s0, rs, p, len as int, i0));
                    assert(target[i1] == butterfly(s0, rs, p, len as int, i1));
                    assert(s0[i0] == (u.value as int) % p);
                    assert(s0[i1] == (hi.value as int) % p);
                }
                values[start + j] = u + v;
                values[start + j + half] = u - v;
                proof {
                    let e = (j * stride) as nat;
                    lemma_mul_mod_noop(
                        pow(omega.value as int, e),
                        pow(omega.value as int, stride as nat),
                        p,
                    );
                    lemma_pow_adds(omega.value as int, e, stride as nat);
                    lemma_mul_is_distributive_add_other_way(stride as int, j as int, 1);
                }
                w = w * w_len;
                j += 1;
            }
            start += len;
            proof {
                q = q + 1;
                lemma_mul_is_distributive_add_other_way(len as int, q - 1, 1);
            }
        }
        assert(reduce_all(values_of(values@)) =~= target);
        proof {
            if n >= 2 {
                lemma_stage_step(vm, rs, p, len as int);
            }
        }
        if len == n {
            break;
        }
        proof {
            lemma_pow2_between(len as nat, n as nat);
        }
        len = len * 2;
        assert((len / 2) as int == len as int / 2);
    }
    proof {
        lemma_partial_full(vm, rs, p);
        assert(values_of(v0).len() == n);
        assert(ntt_spec(values_of(v0), omega.value as int) == fft(vm, rs, p));
    }
}

/// No power of two is a multiple of p.
proof fn lemma_pow2_not_multiple(n: nat)
    requires
        is_pow2(n),
    ensures
        (n as int) % (BABYBEAR_PRIME as int) != 0,
{
    let p = BABYBEAR_PRIME as int;
    lemma_babybear_pow2_fermat(n);
    if (n as int) % p == 0 {
        lemma_pow_mod_noop(n as int, (p - 1) as nat, p);
        lemma0_pow((p - 1) as nat);
    }
}

/// Inverse transform in place: the forward transform with `omega^(n-1)`,
/// then every entry multiplied by the inverse of `n`.
pub fn intt(values: &mut [BabyBear], omega: BabyBear)
    requires
        is_pow2(old(values).len() as nat),
        forall|i: int|
            0 <= i < old(values).len() / 2 ==> old(values)[i].value + BABYBEAR_PRIME <= u64::MAX,
    ensures
        final(values).len() == old(values).len(),
        values_of(final(values)@) == intt_spec(values_of(old(values)@), omega.value as int),
{
    let n = values.len();
    let ghost p = BABYBEAR_PRIME as int;
    let ghost v0 = values_of(values@);
    proof {
        lemma_pow2_pos(n as nat);
        lemma_pow2_not_multiple(n as nat);
    }
    let inv_omega = omega.pow(n as u64 - 1);
    ntt(values, inv_omega);
    let ghost t = ntt_spec(v0, inv_omega.value as int);
    let inv_n = BabyBear::new(n as u64).inverse();
    let ghost c = inv_n.value as int;
    assert(c == pow((n as int) % p, (p - 2) as nat) % p);
    let mut i: usize = 0;
    while i < n
        invariant
            values.len() == n,
            p == BABYBEAR_PRIME,
            i <= n,
            t.len() == n,
            forall|k: int| 0 <= k < n ==> (#[trigger] values[k].value as int) % p == t[k] || k < i,
            forall|k: int| 0 <= k < i ==> #[trigger] values[k].value as int == (t[k] * c) % p,
            c == inv_n.value,
        decreases n - i,
    {
        let x = values[i];
        proof {
            lemma_mul_mod_noop_left(x.value as int, c, p);
        }
        values[i] = x * inv_n;
        i += 1;
    }
    assert(values_of(values@) =~= intt_spec(v0, omega.value as int));
}

/// The `n` powers `omega^0, ..., omega^(n-1)` of the root of unity of order
/// `n` (a power of two up to `2^27`); they are distinct.
pub fn roots_of_unity_domain(n: usize) -> (domain: Vec<BabyBear>)
    requires
        is_pow2(n as nat),
        n <= pow2(27),
    ensures
        domain.len() == n,
        forall|i: int|
            0 <= i < n ==> #[trigger] domain[i].value as int == pow(
                pow(440564289, pow2((27 - log2_spec(n as nat)) as nat)) % (BABYBEAR_PRIME as int),
                i as nat,
            ) % (BABYBEAR_PRIME as int),
        forall|i: int, j: int| 0 <= i < j < n ==> domain[i].value != domain[j].value,
{
    let log_n = log2_exact(n);
    proof {
        if log_n > 27 {
            vstd::arithmetic::power2::lemma_pow2_strictly_increases(27, log_n as nat);
        }
    }
    let omega = BabyBear::get_root_of_unity(log_n as u32);
    let ghost p = BABYBEAR_PRIME as int;
    let ghost w = omega.value as int;
    proof {
        lemma_log2_spec(log_n as nat);
    }
    let mut domain: Vec<BabyBear> = Vec::with_capacity(n);
    let mut cur = BabyBear::one();
    let mut i: usize = 0;
    proof {
        lemma_pow0(w);
        lemma_small_mod(1, BABYBEAR_PRIME as nat);
    }
    while i < n
        invariant
            i <= n,
            p == BABYBEAR_PRIME,
            w == omega.value,
            domain.len() == i,
            cur.value as int == pow(w, i as nat) % p,
            forall|k: int| 0 <= k < i ==> #[trigger] domain[k].value as int == pow(w, k as nat) % p,
        decreases n - i,
    {
        domain.push(cur);
        proof {
            lemma_mul_mod_noop_left(pow(w, i as nat), w, p);
            lemma_pow_adds(w, i as nat, 1);
            lemma_pow1(w);
        }
        cur = cur * omega;
        i += 1;
    }
    proof {
        lemma_root_of_unity_order(log_n as nat);
        assert forall|i: int, j: int| 0 <= i < j < n implies domain[i].value != domain[j].value by {
            lemma_pow2_is_pow2(log_n as nat);
            if log_n >= 1 {
                lemma_pow2_unfold(log_n as nat);
                lemma_powers_distinct(n as nat, w, p, i, j);
            }
        }
    }
    domain
}

/// The exponent `k` with `2^k == n` (0 when `n` is not a power of two).
pub open spec fn log2_spec(n: nat) -> nat
    decreases n,
{
    if n <= 1 {
        0
    } else {
        1 + log2_spec(n / 2)
    }
}

/// `log2_spec` inverts `pow2`.
pub proof fn lemma_log2_spec(k: nat)
    ensures
        log2_spec(pow2(k)) == k,
    decreases k,
{
    vstd::arithmetic::power2::lemma2_to64();
    if k > 0 {
        lemma_pow2_unfold(k);
        lemma_log2_spec((k - 1) as nat);
        vstd::arithmetic::power2::lemma_pow2_pos((k - 1) as nat);
    }
}

/// Inverse and forward transforms undo each other: for canonical values and
/// a `w` of order `n` (`w^(n/2) = p - 1`), the inverse transform of the
/// forward transform gives the values back.
pub proof fn lemma_intt_inverts_ntt(v: Seq<int>, w: int)
    requires
        is_pow2(v.len()),
        forall|i: int| 0 <= i < v.len() ==> 0 <= #[trigger] v[i] < BABYBEAR_PRIME,
        v.len() >= 2 ==> pow(w, (v.len() / 2) as nat) % (BABYBEAR_PRIME as int) == BABYBEAR_PRIME
            - 1,
    ensures
        intt_spec(ntt_spec(v, w), w) == v,
{
    let n = v.len();
    let p = BABYBEAR_PRIME as int;
    let r = powers(w, n);
    lemma_pow2_pos(n);
    assert(reduce_all(v) =~= v) by {
        assert forall|i: int| 0 <= i < n implies reduce_all(v)[i] == v[i] by {
            lemma_small_mod(v[i] as nat, p as nat);
        }
    }
    assert(is_root_table(r, w, p));
    lemma_fft_is_dft(v, r, w, p);
    let x = fft(v, r, p);
    assert(reduce_all(x) =~= x) by {
        assert forall|i: int| 0 <= i < n implies reduce_all(x)[i] == x[i] by {
            lemma_mod_twice(dft_at(v, w, i), p);
        }
    }
    // the powers of w^(n-1) are the inverse twiddles
    let u = pow(w, (n - 1) as nat) % p;
    lemma_inverse_root_table(r, w, p);
    assert(powers(u, n) =~= inverse_roots(r)) by {
        assert forall|i: int| 0 <= i < n implies powers(u, n)[i] == inverse_roots(r)[i] by {
            lemma_pow_mod_noop(pow(w, (n - 1) as nat), i as nat, p);
            lemma_pow_multiplies(w, (n - 1) as nat, i as nat);
            assert(inverse_roots(r)[i] == pow(pow(w, (n - 1) as nat), i as nat) % p);
        }
    }
    lemma_babybear_pow2_fermat(n);
    lemma_pow2_not_multiple(n);
    let c = pow((n as int) % p, (p - 2) as nat) % p;
    assert((n * c) % p == 1) by {
        lemma_pow_mod_noop(n as int, (p - 2) as nat, p);
        lemma_mul_mod_noop_right(n as int, pow(n as int, (p - 2) as nat), p);
        lemma_pow1(n as int);
        lemma_pow_adds(n as int, 1, (p - 2) as nat);
    }
    lemma_fft_inverse(v, r, w, p, c);
    assert(intt_spec(x, w) =~= scale_mod(fft(x, inverse_roots(r), p), c, p));
}

/// The forward transform also undoes the inverse one: for canonical values
/// and a `w` of order `n` (`w^(n/2) = p - 1`), the forward transform of the
/// inverse transform gives the values back.
pub proof fn lemma_ntt_inverts_intt(v: Seq<int>, w: int)
    requires
        is_pow2(v.len()),
        forall|i: int| 0 <= i < v.len() ==> 0 <= #[trigger] v[i] < BABYBEAR_PRIME,
        v.len() >= 2 ==> pow(w, (v.len() / 2) as nat) % (BABYBEAR_PRIME as int) == BABYBEAR_PRIME
            - 1,
    ensures
        ntt_spec(intt_spec(v, w), w) == v,
{
    let n = v.len();
    let p = BABYBEAR_PRIME as int;
    let r = powers(w, n);
    lemma_pow2_pos(n);
    assert(reduce_all(v) =~= v) by {
        assert forall|i: int| 0 <= i < n implies reduce_all(v)[i] == v[i] by {
            lemma_small_mod(v[i] as nat, p as nat);
        }
    }
    assert(is_root_table(r, w, p));
    let u = pow(w, (n - 1) as nat) % p;
    lemma_inverse_root_table(r, w, p);
    assert(powers(u, n) =~= inverse_roots(r)) by {
        assert forall|i: int| 0 <= i < n implies powers(u, n)[i] == inverse_roots(r)[i] by {
            lemma_pow_mod_noop(pow(w, (n - 1) as nat), i as nat, p);
            lemma_pow_multiplies(w, (n - 1) as nat, i as nat);
            assert(inverse_roots(r)[i] == pow(pow(w, (n - 1) as nat), i as nat) % p);
        }
    }
    lemma_babybear_pow2_fermat(n);
    lemma_pow2_not_multiple(n);
    let c = pow((n as int) % p, (p - 2) as nat) % p;
    assert((n * c) % p == 1) by {
        lemma_pow_mod_noop(n as int, (p - 2) as nat, p);
        lemma_mul_mod_noop_right(n as int, pow(n as int, (p - 2) as nat), p);
        lemma_pow1(n as int);
        lemma_pow_adds(n as int, 1, (p - 2) as nat);
    }
    let y = intt_spec(v, w);
    let t = ntt_spec(v, u);
    assert(t == fft(v, inverse_roots(r), p));
    crate::ntt::transform::lemma_fft_len(v, inverse_roots(r), p);
    assert forall|i: int| 0 <= i < n implies #[trigger] y[i] == scale_mod(fft(v, inverse_roots(r), p), c, p)[i] by {
        assert(y[i] == (t[i] * c) % p);
    }
    assert(y =~= scale_mod(fft(v, inverse_roots(r), p), c, p));
    assert(reduce_all(y) =~= y) by {
        assert forall|i: int| 0 <= i < n implies reduce_all(y)[i] == y[i] by {
            lemma_mod_twice(fft(v, inverse_roots(r), p)[i] * c, p);
        }
    }
    lemma_fft_inverse_first(v, r, w, p, c);
}

/// With a `w` of order `n`, entry `k` of the forward transform of canonical
/// coefficients is the polynomial they define evaluated at `w^k`.
pub proof fn lemma_ntt_evaluates(v: Seq<int>, w: int)
    requires
        is_pow2(v.len()),
        forall|i: int| 0 <= i < v.len() ==> 0 <= #[trigger] v[i] < BABYBEAR_PRIME,
        v.len() >= 2 ==> pow(w, (v.len() / 2) as nat) % (BABYBEAR_PRIME as int) == BABYBEAR_PRIME
            - 1,
    ensures
        forall|k: int|
            0 <= k < v.len() ==> #[trigger] ntt_spec(v, w)[k] == dft_at(v, w, k) % (
            BABYBEAR_PRIME as int),
{
    let p = BABYBEAR_PRIME as int;
    assert(reduce_all(v) =~= v) by {
        assert forall|i: int| 0 <= i < v.len() implies reduce_all(v)[i] == v[i] by {
            lemma_small_mod(v[i] as nat, p as nat);
        }
    }
    lemma_fft_is_dft(v, powers(w, v.len()), w, p);
}

} // verus!
