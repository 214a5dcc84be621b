//! The radix-2 transform as a recursive specification, and the facts that tie
//! the bottom-up, in-place computation (bit reversal, then one butterfly stage
//! per block size) to it.

use vstd::prelude::*;
use vstd::arithmetic::div_mod::*;
use vstd::arithmetic::mul::*;

verus! {

/// `n` is a power of two (1, 2, 4, ...).
pub open spec fn is_pow2(n: nat) -> bool
    decreases n,
{
    if n == 1 {
        true
    } else if n == 0 || n % 2 == 1 {
        false
    } else {
        is_pow2(n / 2)
    }
}

/// The values of a `u32` sequence as integers.
pub open spec fn ints(s: Seq<u32>) -> Seq<int> {
    s.map_values(|x: u32| x as int)
}

/// The elements at even positions.
pub open spec fn evens<T>(s: Seq<T>) -> Seq<T> {
    Seq::new(((s.len() + 1) / 2) as nat, |i: int| s[2 * i])
}

/// The elements at odd positions.
pub open spec fn odds<T>(s: Seq<T>) -> Seq<T> {
    Seq::new((s.len() / 2) as nat, |i: int| s[2 * i + 1])
}

/// The bit-reversal permutation, as the recursive even/odd split.
pub open spec fn bit_reversed<T>(s: Seq<T>) -> Seq<T>
    decreases s.len(),
{
    if s.len() <= 1 {
        s
    } else {
        bit_reversed(evens(s)) + bit_reversed(odds(s))
    }
}

/// One radix-2 combination: from the transforms `e` and `o` of the even- and
/// odd-indexed halves, the transform of the whole, with twiddles `r` mod `m`.
pub open spec fn combine(e: Seq<int>, o: Seq<int>, r: Seq<int>, m: int) -> Seq<int> {
    let h = e.len();
    Seq::new(
        2 * h,
        |i: int|
            if i < h {
                (e[i] + (r[i] * o[i]) % m) % m
            } else {
                (e[i - h] + m - (r[i - h] * o[i - h]) % m) % m
            },
    )
}

/// The radix-2 transform of `v` with twiddles `r` (the twiddle of index `i`
/// at the top level, every second one a level down) modulo `m`.
pub open spec fn fft(v: Seq<int>, r: Seq<int>, m: int) -> Seq<int>
    decreases v.len(),
{
    if v.len() <= 1 {
        v
    } else {
        combine(fft(evens(v), evens(r), m), fft(odds(v), evens(r), m), r, m)
    }
}

/// The value at position `i` after one in-place butterfly stage with blocks
/// of `len` elements.
pub open spec fn butterfly(s: Seq<int>, r: Seq<int>, m: int, len: int, i: int) -> int {
    let h = len / 2;
    let stride = s.len() as int / len;
    let p = i % len;
    if p < h {
        (s[i] + (r[p * stride] * s[i + h]) % m) % m
    } else {
        (s[i - h] + m - (r[(p - h) * stride] * s[i]) % m) % m
    }
}

/// One in-place butterfly stage with blocks of `len` elements.
pub open spec fn stage(s: Seq<int>, r: Seq<int>, m: int, len: int) -> Seq<int> {
    Seq::new(s.len(), |i: int| butterfly(s, r, m, len, i))
}

/// The array after all stages with blocks up to `len`: the transforms of the
/// sub-sequences of size `len`, in bit-reversed order of the sub-sequences.
pub open spec fn partial_fft(v: Seq<int>, r: Seq<int>, m: int, len: int) -> Seq<int>
    decreases v.len(),
{
    if v.len() <= len || v.len() <= 1 {
        fft(v, r, m)
    } else {
        partial_fft(evens(v), evens(r), m, len) + partial_fft(odds(v), evens(r), m, len)
    }
}

pub proof fn lemma_pow2_even(n: nat)
    requires
        is_pow2(n),
        n >= 2,
    ensures
        n % 2 == 0,
        is_pow2(n / 2),
{
}

pub proof fn lemma_pow2_pos(n: nat)
    requires
        is_pow2(n),
    ensures
        n >= 1,
{
}

/// A smaller power of two divides a larger one.
pub proof fn lemma_pow2_divides(a: nat, b: nat)
    requires
        is_pow2(a),
        is_pow2(b),
        a <= b,
    ensures
        b % a == 0,
    decreases b,
{
    if a < b {
        lemma_pow2_pos(a);
        lemma_pow2_even(b);
        if a > b / 2 {
            // a and b are powers of two with b/2 < a < b: impossible
            lemma_pow2_between(a, b);
        }
        lemma_pow2_divides(a, b / 2);
        lemma_fundamental_div_mod((b / 2) as int, a as int);
        let q = (b / 2) / a;
        assert(b == (2 * q) * a) by {
            lemma_mul_is_associative(2, q as int, a as int);
        }
        lemma_mod_multiples_basic(2 * q as int, a as int);
    } else {
        lemma_pow2_pos(a);
        lemma_mod_self_0(a as int);
    }
}

/// No power of two lies strictly between `b / 2` and `b`.
pub proof fn lemma_pow2_between(a: nat, b: nat)
    requires
        is_pow2(a),
        is_pow2(b),
        a < b,
    ensures
        a <= b / 2,
    decreases b,
{
    lemma_pow2_pos(a);
    if a >= 2 {
        lemma_pow2_even(a);
        lemma_pow2_even(b);
        lemma_pow2_between(a / 2, b / 2);
    } else {
        lemma_pow2_even(b);
    }
}

pub proof fn lemma_evens_odds_len<T>(s: Seq<T>)
    requires
        s.len() % 2 == 0,
    ensures
        evens(s).len() == s.len() / 2,
        odds(s).len() == s.len() / 2,
{
}

/// The bit-reversed sequence at the start of the computation is the array
/// after no stage at all.
pub proof fn lemma_bit_reversed_is_partial(v: Seq<int>, r: Seq<int>, m: int)
    requires
        v.len() <= 1 || is_pow2(v.len()),
    ensures
        bit_reversed(v) == partial_fft(v, r, m, 1),
    decreases v.len(),
{
    if v.len() > 1 {
        lemma_pow2_even(v.len());
        lemma_evens_odds_len(v);
        lemma_bit_reversed_is_partial(evens(v), evens(r), m);
        lemma_bit_reversed_is_partial(odds(v), evens(r), m);
    }
}

pub proof fn lemma_bit_reversed_len<T>(v: Seq<T>)
    ensures
        bit_reversed(v).len() == v.len(),
    decreases v.len(),
{
    if v.len() > 1 {
        lemma_bit_reversed_len(evens(v));
        lemma_bit_reversed_len(odds(v));
    }
}

pub proof fn lemma_fft_len(v: Seq<int>, r: Seq<int>, m: int)
    requires
        v.len() <= 1 || is_pow2(v.len()),
    ensures
        fft(v, r, m).len() == v.len(),
    decreases v.len(),
{
    if v.len() > 1 {
        lemma_pow2_even(v.len());
        lemma_evens_odds_len(v);
        lemma_fft_len(evens(v), evens(r), m);
    }
}

pub proof fn lemma_partial_len(v: Seq<int>, r: Seq<int>, m: int, len: int)
    requires
        v.len() <= 1 || is_pow2(v.len()),
    ensures
        partial_fft(v, r, m, len).len() == v.len(),
    decreases v.len(),
{
    if v.len() <= len || v.len() <= 1 {
        lemma_fft_len(v, r, m);
    } else {
        lemma_pow2_even(v.len());
        lemma_evens_odds_len(v);
        lemma_partial_len(evens(v), evens(r), m, len);
        lemma_partial_len(odds(v), evens(r), m, len);
    }
}

/// Position facts inside blocks of `len` elements of a sequence of `q` blocks.
proof fn lemma_block_index(i: int, len: int, q: int)
    requires
        len >= 2,
        len % 2 == 0,
        0 <= i < q * len,
    ensures
        0 <= i % len < len,
        i % len < len / 2 ==> i + len / 2 < q * len,
        i % len >= len / 2 ==> i - len / 2 >= 0,
        i % len >= len / 2 ==> (i - len / 2) % len == i % len - len / 2,
        i % len < len / 2 ==> (i + len / 2) % len == i % len + len / 2,
        (i % len) * q < q * len,
        q > 0,
{
    lemma_fundamental_div_mod(i, len);
    lemma_mod_bound(i, len);
    let t = i / len;
    let p = i % len;
    if q <= 0 {
        lemma_mul_inequality(q, 0, len);
    }
    assert(t < q) by {
        if t >= q {
            lemma_mul_inequality(q, t, len);
            lemma_mul_is_commutative(t, len);
        }
    }
    assert(t * len + len <= q * len) by {
        lemma_mul_inequality(t + 1, q, len);
        lemma_mul_is_distributive_add_other_way(len, t, 1);
    }
    lemma_mul_is_commutative(t, len);
    if p < len / 2 {
        lemma_mod_multiples_vanish(t, p + len / 2, len);
        lemma_small_mod((p + len / 2) as nat, len as nat);
    } else {
        lemma_mod_multiples_vanish(t, p - len / 2, len);
        lemma_small_mod((p - len / 2) as nat, len as nat);
    }
    lemma_mul_strict_inequality(p, len, q);
    lemma_mul_is_commutative(p, q);
    lemma_mul_is_commutative(len, q);
}

/// A stage on two halves whose lengths are multiples of the block size is the
/// stage on each half, with every second twiddle.
pub proof fn lemma_stage_concat(a: Seq<int>, b: Seq<int>, r: Seq<int>, m: int, len: int)
    requires
        a.len() == b.len(),
        len >= 2,
        len % 2 == 0,
        a.len() as int % len == 0,
        r.len() == 2 * a.len(),
    ensures
        stage(a + b, r, m, len) == stage(a, evens(r), m, len) + stage(b, evens(r), m, len),
{
    let hh = a.len() as int;
    let s = a + b;
    let er = evens(r);
    lemma_fundamental_div_mod(hh, len);
    let q = hh / len;
    assert(hh == q * len) by {
        lemma_mul_is_commutative(q, len);
    }
    assert(s.len() as int == (2 * q) * len) by {
        lemma_mul_is_associative(2, q, len);
    }
    assert(s.len() as int / len == 2 * q) by {
        lemma_div_by_multiple(2 * q, len);
    }
    assert(hh / len == q);
    let lhs = stage(s, r, m, len);
    let rhs = stage(a, er, m, len) + stage(b, er, m, len);
    assert forall|i: int| 0 <= i < s.len() implies lhs[i] == rhs[i] by {
        let h = len / 2;
        if i < hh {
            lemma_block_index(i, len, q);
            let p = i % len;
            if p < h {
                lemma_mul_is_associative(p, 2, q);
                lemma_mul_is_commutative(p, 2);
                lemma_mul_is_associative(2, p, q);
                assert(r[p * (2 * q)] == er[p * q]);
            } else {
                lemma_mul_is_associative(p - h, 2, q);
                lemma_mul_is_commutative(p - h, 2);
                lemma_mul_is_associative(2, p - h, q);
                lemma_mul_inequality(p - h, p, q);
                assert(r[(p - h) * (2 * q)] == er[(p - h) * q]);
            }
        } else {
            let j = i - hh;
            lemma_block_index(j, len, q);
            lemma_mod_multiples_vanish(q, j, len);
            lemma_mul_is_commutative(q, len);
            assert(i % len == j % len);
            let p = j % len;
            if p < h {
                lemma_mul_is_associative(p, 2, q);
                lemma_mul_is_commutative(p, 2);
                lemma_mul_is_associative(2, p, q);
                assert(r[p * (2 * q)] == er[p * q]);
            } else {
                lemma_mul_is_associative(p - h, 2, q);
                lemma_mul_is_commutative(p - h, 2);
                lemma_mul_is_associative(2, p - h, q);
                lemma_mul_inequality(p - h, p, q);
                assert(r[(p - h) * (2 * q)] == er[(p - h) * q]);
            }
        }
    }
    assert(lhs =~= rhs);
}

/// The last stage over a single block combines the transforms of the halves.
proof fn lemma_stage_base(v: Seq<int>, r: Seq<int>, m: int)
    requires
        is_pow2(v.len()),
        v.len() >= 2,
        r.len() == v.len(),
    ensures
        stage(
            fft(evens(v), evens(r), m) + fft(odds(v), evens(r), m),
            r,
            m,
            v.len() as int,
        ) == fft(v, r, m),
{
    let n = v.len() as int;
    lemma_pow2_even(v.len());
    lemma_evens_odds_len(v);
    if n / 2 >= 2 {
        lemma_pow2_even((n / 2) as nat);
    }
    lemma_fft_len(evens(v), evens(r), m);
    lemma_fft_len(odds(v), evens(r), m);
    let s = fft(evens(v), evens(r), m) + fft(odds(v), evens(r), m);
    assert(s.len() as int / n == 1) by {
        lemma_div_by_multiple(1, n);
    }
    let lhs = stage(s, r, m, n);
    let rhs = fft(v, r, m);
    assert forall|i: int| 0 <= i < n implies lhs[i] == rhs[i] by {
        lemma_small_mod(i as nat, n as nat);
    }
    assert(lhs =~= rhs);
}

/// One more stage takes the array from blocks of `len / 2` to blocks of `len`.
pub proof fn lemma_stage_step(v: Seq<int>, r: Seq<int>, m: int, len: int)
    requires
        is_pow2(v.len()),
        is_pow2(len as nat),
        2 <= len <= v.len(),
        r.len() == v.len(),
    ensures
        stage(partial_fft(v, r, m, len / 2), r, m, len) == partial_fft(v, r, m, len),
    decreases v.len(),
{
    let n = v.len() as int;
    lemma_pow2_even(v.len());
    lemma_pow2_even(len as nat);
    lemma_evens_odds_len(v);
    lemma_evens_odds_len(r);
    if n == len {
        lemma_stage_base(v, r, m);
    } else {
        lemma_pow2_between(len as nat, v.len());
        lemma_pow2_divides(len as nat, (n / 2) as nat);
        lemma_stage_step(evens(v), evens(r), m, len);
        lemma_stage_step(odds(v), evens(r), m, len);
        lemma_partial_len(evens(v), evens(r), m, len / 2);
        lemma_partial_len(odds(v), evens(r), m, len / 2);
        lemma_stage_concat(
            partial_fft(evens(v), evens(r), m, len / 2),
            partial_fft(odds(v), evens(r), m, len / 2),
            r,
            m,
            len,
        );
    }
}

/// The entries that the first stage adds to (the even positions of the
/// bit-reversed sequence) come from the first half of the input.
pub proof fn lemma_bit_reversed_even_bound(v: Seq<int>, bound: int)
    requires
        is_pow2(v.len()),
        v.len() >= 2,
        forall|i: int| 0 <= i < v.len() / 2 ==> v[i] <= bound,
    ensures
        forall|i: int| 0 <= i < v.len() && i % 2 == 0 ==> bit_reversed(v)[i] <= bound,
    decreases v.len(),
{
    let n = v.len() as int;
    lemma_pow2_even(v.len());
    lemma_evens_odds_len(v);
    lemma_bit_reversed_len(evens(v));
    lemma_bit_reversed_len(odds(v));
    let ev = evens(v);
    let od = odds(v);
    if n >= 4 {
        lemma_pow2_even((n / 2) as nat);
        assert forall|i: int| 0 <= i < ev.len() / 2 implies ev[i] <= bound by {
            assert(v[2 * i] <= bound);
        }
        assert forall|i: int| 0 <= i < od.len() / 2 implies od[i] <= bound by {
            assert(v[2 * i + 1] <= bound);
        }
        lemma_bit_reversed_even_bound(ev, bound);
        lemma_bit_reversed_even_bound(od, bound);
        assert forall|i: int| 0 <= i < n && i % 2 == 0 implies bit_reversed(v)[i] <= bound by {
            if i < n / 2 {
                assert(bit_reversed(v)[i] == bit_reversed(ev)[i]);
            } else {
                assert(bit_reversed(v)[i] == bit_reversed(od)[i - n / 2]);
            }
        }
    } else {
        assert(bit_reversed(v)[0] == bit_reversed(ev)[0]);
        assert(bit_reversed(v)[0] == v[0]);
    }
}

/// Taking the integer values commutes with the bit-reversal permutation.
pub proof fn lemma_ints_bit_reversed(s: Seq<u32>)
    ensures
        ints(bit_reversed(s)) == bit_reversed(ints(s)),
    decreases s.len(),
{
    if s.len() > 1 {
        assert(ints(evens(s)) =~= evens(ints(s)));
        assert(ints(odds(s)) =~= odds(ints(s)));
        lemma_ints_bit_reversed(evens(s));
        lemma_ints_bit_reversed(odds(s));
        lemma_bit_reversed_len(evens(s));
        lemma_bit_reversed_len(odds(s));
        assert(ints(bit_reversed(evens(s)) + bit_reversed(odds(s))) =~= ints(
            bit_reversed(evens(s)),
        ) + ints(bit_reversed(odds(s))));
    }
}

/// The twiddles of the inverse transform: the first one, then the rest in
/// reverse order (`r[0], r[n-1], ..., r[1]`).
pub open spec fn inverse_roots(r: Seq<int>) -> Seq<int> {
    Seq::new(r.len(), |i: int| if i == 0 { r[0] } else { r[r.len() - i] })
}

/// Every entry multiplied by `c`, modulo `m`.
pub open spec fn scale_mod(s: Seq<int>, c: int, m: int) -> Seq<int> {
    Seq::new(s.len(), |i: int| (s[i] * c) % m)
}

/// With all stages done, the array is the transform.
pub proof fn lemma_partial_full(v: Seq<int>, r: Seq<int>, m: int)
    ensures
        partial_fft(v, r, m, v.len() as int) == fft(v, r, m),
{
}

} // verus!
