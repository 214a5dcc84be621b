//! The vertical Reed-Solomon encoding of a data square and its ZODA-style
//! validation: the encoding parameters, the commitment to encoded rows, the
//! coefficients derived from it, and the two-phase check of an encoding
//! against the reference transforms.

use vstd::prelude::*;
use vstd::string::StringSliceAdditionalSpecFns;
use vstd::arithmetic::div_mod::*;
use vstd::arithmetic::mul::*;
use vstd::arithmetic::power::*;
use vstd::arithmetic::power2::pow2;
use crate::babybear::{le_bytes_u64, BabyBear, BABYBEAR_PRIME};
use crate::hashing::{hex_chars, sha256, sha256_hex, sha256_spec};
use crate::math::sums::{lemma_sum_ext, lemma_sum_single, sum};
use crate::ntt::cpu::{lemma_next_pow2, lemma_next_pow2_bound, next_pow2, next_power_of_two};
use crate::ntt::transform::is_pow2;
use crate::ntt_babybear::{
    all_canonical, intt, intt_spec, lemma_log2_spec, log2_exact, log2_spec, ntt, ntt_spec,
    reduce_all, values_of,
};
use crate::zoda::babybear::{be_u64, coefficient_spec, lemma_coefficient_bound};

verus! {

/// The shape of an encoding: `k` data rows extended by `n` more, each row
/// `row_size` bytes (four per field element).
#[derive(Debug, Clone, Copy)]
pub struct EncodingConfig {
    pub k: usize,
    pub n: usize,
    pub row_size: usize,
}

impl EncodingConfig {
    /// The bytes of data: `k` rows of `row_size` bytes.
    pub fn data_size_bytes(&self) -> (r: usize)
        requires
            self.k * self.row_size <= usize::MAX,
        ensures
            r == self.k * self.row_size,
    {
        self.k * self.row_size
    }

    /// The rows after encoding: `k + n`.
    pub fn total_rows(&self) -> (r: usize)
        requires
            self.k + self.n <= usize::MAX,
        ensures
            r == self.k + self.n,
    {
        self.k + self.n
    }

    /// The field elements per row: four bytes each.
    pub fn elements_per_row(&self) -> (r: usize)
        ensures
            r == self.row_size / 4,
    {
        self.row_size / 4
    }

    /// The columns of the square: one per field element of a row.
    pub fn num_positions(&self) -> (r: usize)
        ensures
            r == self.row_size / 4,
    {
        self.elements_per_row()
    }

    /// The transform size for the data rows: the least power of two at
    /// least `k`.
    pub fn ntt_size_k(&self) -> (r: usize)
        requires
            self.k <= usize::MAX / 2 + 1,
        ensures
            r == next_pow2(self.k as nat),
    {
        next_power_of_two(self.k)
    }

    /// The transform size for all rows: the least power of two at least
    /// `k + n`.
    pub fn ntt_size_kn(&self) -> (r: usize)
        requires
            self.k + self.n <= usize::MAX / 2 + 1,
        ensures
            r == next_pow2((self.k + self.n) as nat),
    {
        next_power_of_two(self.k + self.n)
    }
}

/// The eight little-endian bytes of every value, value after value.
pub open spec fn values_bytes(vals: Seq<BabyBear>) -> Seq<u8>
    decreases vals.len(),
{
    if vals.len() == 0 {
        Seq::empty()
    } else {
        values_bytes(vals.drop_last()) + le_bytes_u64(vals.last().value)
    }
}

/// The bytes of all rows, row after row.
pub open spec fn rows_bytes(rows: Seq<Vec<BabyBear>>) -> Seq<u8>
    decreases rows.len(),
{
    if rows.len() == 0 {
        Seq::empty()
    } else {
        rows_bytes(rows.drop_last()) + values_bytes(rows.last()@)
    }
}

/// The commitment to encoded rows: the lowercase hexadecimal SHA-256 digest
/// of the little-endian bytes of every value, row by row.
pub fn compute_data_root(encoded_rows: &[Vec<BabyBear>]) -> (r: String)
    ensures
        r@ == hex_chars(sha256_spec(rows_bytes(encoded_rows@))),
{
    let mut bytes: Vec<u8> = Vec::new();
    let mut i: usize = 0;
    while i < encoded_rows.len()
        invariant
            i <= encoded_rows.len(),
            bytes@ == rows_bytes(encoded_rows@.take(i as int)),
        decreases encoded_rows.len() - i,
    {
        let row = &encoded_rows[i];
        let ghost before = bytes@;
        let mut j: usize = 0;
        while j < row.len()
            invariant
                j <= row.len(),
                bytes@ == before + values_bytes(row@.take(j as int)),
            decreases row.len() - j,
        {
            let b = row[j].to_bytes();
            assert(row@.take(j + 1).drop_last() =~= row@.take(j as int));
            bytes.push(b[0]);
            bytes.push(b[1]);
            bytes.push(b[2]);
            bytes.push(b[3]);
            bytes.push(b[4]);
            bytes.push(b[5]);
            bytes.push(b[6]);
            bytes.push(b[7]);
            assert(bytes@ =~= before + values_bytes(row@.take(j + 1)));
            j += 1;
        }
        assert(row@.take(row.len() as int) =~= row@);
        assert(encoded_rows@.take(i + 1).drop_last() =~= encoded_rows@.take(i as int));
        i += 1;
    }
    assert(encoded_rows@.take(encoded_rows.len() as int) =~= encoded_rows@);
    sha256_hex(bytes.as_slice())
}

/// The `num_columns` combination coefficients derived from a commitment:
/// coefficient `i` is the first eight bytes of `SHA-256(root || le64(i))`
/// read big-endian, plus `i`, mod p.
pub fn generate_deterministic_coefficients(data_root: &str, num_columns: usize) -> (r: Vec<BabyBear>)
    ensures
        r.len() == num_columns,
        forall|i: int|
            0 <= i < num_columns ==> #[trigger] r[i].value == coefficient_spec(data_root.spec_bytes(), i),
{
    reveal(coefficient_spec);
    let bytes = data_root.as_bytes();
    let mut r: Vec<BabyBear> = Vec::new();
    let mut i: usize = 0;
    while i < num_columns
        invariant
            i <= num_columns,
            bytes@ == data_root.spec_bytes(),
            r.len() == i,
            forall|k: int|
                0 <= k < i ==> #[trigger] r[k].value == coefficient_spec(data_root.spec_bytes(), k),
        decreases num_columns - i,
    {
        proof {
            reveal(coefficient_spec);
        }
        let mut data: Vec<u8> = Vec::new();
        let mut j: usize = 0;
        while j < bytes.len()
            invariant
                j <= bytes.len(),
                data@ == bytes@.take(j as int),
            decreases bytes.len() - j,
        {
            data.push(bytes[j]);
            assert(data@ =~= bytes@.take(j + 1));
            j += 1;
        }
        let v = i as u64;
        let le = BabyBear { value: v }.to_bytes();
        data.push(le[0]);
        data.push(le[1]);
        data.push(le[2]);
        data.push(le[3]);
        data.push(le[4]);
        data.push(le[5]);
        data.push(le[6]);
        data.push(le[7]);
        assert(data@ =~= bytes@ + le_bytes_u64(v));
        let d = sha256(data.as_slice());
        let val: u64 = (d[0] as u64) * 0x100_0000_0000_0000 + (d[1] as u64) * 0x1_0000_0000_0000
            + (d[2] as u64) * 0x100_0000_0000 + (d[3] as u64) * 0x1_0000_0000 + (d[4] as u64)
            * 0x100_0000 + (d[5] as u64) * 0x1_0000 + (d[6] as u64) * 0x100 + (d[7] as u64);
        assert(val == be_u64(d@));
        let a = BabyBear::new(val);
        let b = BabyBear::new(i as u64);
        let c = a + b;
        proof {
            let p = BABYBEAR_PRIME as int;
            if a.value + b.value >= 2 * p {
            } else if a.value + b.value >= p {
                lemma_mod_sub_multiples_vanish(a.value + b.value, p);
                lemma_small_mod((a.value + b.value - p) as nat, p as nat);
            } else {
                lemma_small_mod((a.value + b.value) as nat, p as nat);
            }
        }
        r.push(c);
        i += 1;
    }
    r
}

/// The value of the data square at `(row, col)`: `(row * np + col) mod p`.
pub open spec fn input_value(np: int, row: int, col: int) -> int {
    (row * np + col) % (BABYBEAR_PRIME as int)
}

/// Column `col` of the data square (`k` values) zero-padded to `nk`.
pub open spec fn column_input(k: nat, np: nat, col: int, nk: nat) -> Seq<int> {
    Seq::new(nk, |r: int| if r < k { input_value(np as int, r, col) } else { 0 })
}

/// `v` followed by zeros up to length `m`.
pub open spec fn pad_ints(v: Seq<int>, m: nat) -> Seq<int> {
    Seq::new(m, |i: int| if i < v.len() { v[i] } else { 0 })
}

/// The reference encoding of column `col`: the inverse transform of its
/// values padded to `nk` (with `wk`), padded to `nkn`, then the forward
/// transform (with `wkn`).
#[verifier::opaque]
pub open spec fn encoded_column(
    k: nat,
    np: nat,
    col: int,
    nk: nat,
    nkn: nat,
    wk: int,
    wkn: int,
) -> Seq<int> {
    ntt_spec(pad_ints(intt_spec(column_input(k, np, col, nk), wk), nkn), wkn)
}

/// The root of unity of order `m` that `get_root_of_unity` gives.
#[verifier::opaque]
pub open spec fn root_for(m: nat) -> int {
    pow(440564289, pow2((27 - log2_spec(m)) as nat)) % (BABYBEAR_PRIME as int)
}

/// Encodes column `col` of the data square the reference way: its `k`
/// values `(row * np + col) mod p`, zero-padded to `nk`, by the inverse
/// transform with `omega_k`; zero-padded to `nkn`; by the forward transform
/// with `omega_kn`.
pub fn encode_column(
    k: usize,
    np: usize,
    col: usize,
    nk: usize,
    nkn: usize,
    omega_k: BabyBear,
    omega_kn: BabyBear,
) -> (r: Vec<BabyBear>)
    requires
        col < np,
        k * np <= usize::MAX,
        is_pow2(nk as nat),
        is_pow2(nkn as nat),
        k <= nk <= nkn,
    ensures
        r.len() == nkn,
        values_of(r@) == encoded_column(
            k as nat,
            np as nat,
            col as int,
            nk as nat,
            nkn as nat,
            omega_k.value as int,
            omega_kn.value as int,
        ),
        all_canonical(r@),
{
    reveal(encoded_column);
    let ghost p = BABYBEAR_PRIME as int;
    let ghost input = column_input(k as nat, np as nat, col as int, nk as nat);
    let mut v: Vec<BabyBear> = Vec::new();
    let mut row: usize = 0;
    while row < k
        invariant
            row <= k,
            col < np,
            k * np <= usize::MAX,
            k <= nk,
            input == column_input(k as nat, np as nat, col as int, nk as nat),
            values_of(v@) == input.take(row as int),
            all_canonical(v@),
        decreases k - row,
    {
        proof {
            lemma_mul_inequality(row as int, k as int - 1, np as int);
            lemma_mul_is_distributive_sub_other_way(np as int, k as int, 1);
        }
        let x = (row * np + col) % 2013265921;
        let e = BabyBear::new(x as u64);
        proof {
            lemma_small_mod(x as nat, BABYBEAR_PRIME as nat);
            assert(x as int == input_value(np as int, row as int, col as int));
            assert(input[row as int] == x as int);
            assert(e.value == x as u64);
        }
        let ghost old_v = v@;
        assert(input.len() == nk);
        assert(input.take(row as int).len() == row);
        assert(values_of(v@).len() == v@.len());
        assert(v@.len() == row);
        v.push(e);
        assert(values_of(v@) =~= input.take(row + 1)) by {
            assert forall|i: int| 0 <= i < row + 1 implies values_of(v@)[i] == input.take(
                row + 1,
            )[i] by {
                if i < row {
                    assert(v@[i] == old_v[i]);
                    assert(values_of(old_v)[i] == input.take(row as int)[i]);
                }
            }
        }
        row += 1;
    }
    while v.len() < nk
        invariant
            k <= v.len() <= nk,
            values_of(v@) == input.take(v.len() as int),
            input == column_input(k as nat, np as nat, col as int, nk as nat),
            all_canonical(v@),
        decreases nk - v.len(),
    {
        let ghost len0 = v.len();
        v.push(BabyBear::zero());
        assert(values_of(v@) =~= input.take(len0 + 1));
    }
    assert(values_of(v@) =~= input);
    intt(v.as_mut_slice(), omega_k);
    let ghost t = intt_spec(input, omega_k.value as int);
    assert forall|i: int| 0 <= i < v.len() implies #[trigger] v@[i].value < BABYBEAR_PRIME by {
        assert(values_of(v@)[i] == t[i]);
    }
    let ghost padded = pad_ints(t, nkn as nat);
    while v.len() < nkn
        invariant
            nk <= v.len() <= nkn,
            t.len() == nk,
            padded == pad_ints(t, nkn as nat),
            values_of(v@) == padded.take(v.len() as int),
            all_canonical(v@),
        decreases nkn - v.len(),
    {
        let ghost len0 = v.len();
        v.push(BabyBear::zero());
        assert(values_of(v@) =~= padded.take(len0 + 1));
    }
    assert(values_of(v@) =~= padded) by {
        assert forall|i: int| 0 <= i < nkn implies values_of(v@)[i] == padded[i] by {
            if i < nk {
                assert(values_of(v@)[i] == padded.take(nk as int)[i]);
            }
        }
    }
    ntt(v.as_mut_slice(), omega_kn);
    assert(values_of(v@) =~= reduce_all(values_of(v@))) by {
        assert forall|i: int| 0 <= i < nkn implies values_of(v@)[i] == reduce_all(values_of(v@))[i] by {
            lemma_small_mod(v@[i].value as nat, BABYBEAR_PRIME as nat);
        }
    }
    v
}

/// The number of checks in a phase: at most 64, at most `m`.
pub open spec fn sample_count(m: int) -> int {
    if m < 64 {
        m
    } else {
        64
    }
}

/// The index that check `i` of `count` looks at, spread evenly over `total`.
pub open spec fn sampled(i: int, total: int, count: int) -> int {
    (i * total) / count
}

/// The terms `row[j] * cs[j]` of a linear combination.
pub open spec fn product_terms(row: Seq<BabyBear>, cs: Seq<BabyBear>) -> spec_fn(int) -> int {
    |j: int| row[j].value * cs[j].value
}

/// The combination of a row with the coefficients, over the positions both
/// have, mod p.
pub open spec fn row_combination(row: Seq<BabyBear>, cs: Seq<BabyBear>) -> int {
    let m = if row.len() < cs.len() {
        row.len()
    } else {
        cs.len()
    };
    sum(m, product_terms(row, cs)) % (BABYBEAR_PRIME as int)
}

/// The combination of the coefficients with the entries of every column at `row`.
pub open spec fn column_terms(cols: Seq<Seq<int>>, row: int, cs: Seq<BabyBear>) -> spec_fn(int) -> int {
    |c: int| cols[c][row] * cs[c].value
}

/// The linear combination of row `row` of the columns with the coefficients, mod p.
pub open spec fn columns_combination(cols: Seq<Seq<int>>, row: int, cs: Seq<BabyBear>) -> int {
    sum(cols.len(), column_terms(cols, row, cs)) % (BABYBEAR_PRIME as int)
}

/// The combination of a row with the coefficients (pairs up to the shorter).
fn combine_values(row: &Vec<BabyBear>, cs: &Vec<BabyBear>) -> (r: BabyBear)
    ensures
        r.value == row_combination(row@, cs@),
{
    let m = if row.len() < cs.len() {
        row.len()
    } else {
        cs.len()
    };
    let ghost p = BABYBEAR_PRIME as int;
    let ghost f = product_terms(row@, cs@);
    let mut acc = BabyBear::zero();
    let mut i: usize = 0;
    while i < m
        invariant
            i <= m,
            m <= row.len(),
            m <= cs.len(),
            p == BABYBEAR_PRIME,
            f == product_terms(row@, cs@),
            acc.value == sum(i as nat, f) % p,
        decreases m - i,
    {
        let t = row[i] * cs[i];
        proof {
            lemma_mod_bound(sum(i as nat, f), p);
            lemma_mod_bound(f(i as int), p);
            lemma_sum_step_mod(i as nat, f, acc.value as int, t.value as int);
        }
        acc = acc + t;
        i += 1;
    }
    acc
}

/// One step of a running sum mod p: from `sum(i) mod p` and
/// `f(i) mod p`, the reduced sum of the two is `sum(i + 1) mod p`.
proof fn lemma_sum_step_mod(i: nat, f: spec_fn(int) -> int, a: int, t: int)
    requires
        a == sum(i, f) % (BABYBEAR_PRIME as int),
        t == f(i as int) % (BABYBEAR_PRIME as int),
    ensures
        reduce_wide_int(a + t) == sum(i + 1, f) % (BABYBEAR_PRIME as int),
{
    let p = BABYBEAR_PRIME as int;
    lemma_add_mod_noop(sum(i, f), f(i as int), p);
    lemma_mod_bound(sum(i, f), p);
    lemma_mod_bound(f(i as int), p);
    if a + t >= p {
        lemma_mod_sub_multiples_vanish(a + t, p);
        lemma_small_mod((a + t - p) as nat, p as nat);
    } else {
        lemma_small_mod((a + t) as nat, p as nat);
    }
}

/// `x` minus p, twice at most, while it is at least p.
pub open spec fn reduce_wide_int(x: int) -> int {
    let p = BABYBEAR_PRIME as int;
    if x >= p {
        if x - p >= p {
            x - 2 * p
        } else {
            x - p
        }
    } else {
        x
    }
}

/// The encoding of every column with the roots `wk` and `wkn`.
pub open spec fn encoded_columns(
    k: nat,
    np: nat,
    nk: nat,
    nkn: nat,
    wk: int,
    wkn: int,
) -> Seq<Seq<int>> {
    Seq::new(np, |c: int| encoded_column(k, np, c, nk, nkn, wk, wkn))
}

/// The reference encoding of every column.
pub open spec fn reference_columns(k: nat, np: nat, nk: nat, nkn: nat) -> Seq<Seq<int>> {
    encoded_columns(k, np, nk, nkn, root_for(nk), root_for(nkn))
}

/// The coefficients that the commitment to `rows` gives for `np` columns.
pub open spec fn coefficients_for(rows: Seq<Vec<BabyBear>>, np: nat) -> Seq<BabyBear> {
    Seq::new(
        np,
        |i: int|
            BabyBear {
                value: coefficient_spec(
                    vstd::utf8::encode_utf8(hex_chars(sha256_spec(rows_bytes(rows)))),
                    i,
                ) as u64,
            },
    )
}

/// Each of the first `kn` rows has a value at position `c`.
pub open spec fn column_readable(rows: Seq<Vec<BabyBear>>, c: int, kn: int) -> bool {
    forall|r: int| 0 <= r < kn ==> c < #[trigger] rows[r].len()
}

/// Column `c` of the rows is there and matches `expected` on the first
/// `kn` rows.
pub open spec fn column_matches(rows: Seq<Vec<BabyBear>>, c: int, expected: Seq<int>, kn: int) -> bool {
    &&& column_readable(rows, c, kn)
    &&& forall|r: int| 0 <= r < kn ==> #[trigger] rows[r]@[c].value == expected[r]
}

/// The first `i` sampled columns all match.
pub open spec fn columns_pass_before(rows: Seq<Vec<BabyBear>>, cols: Seq<Seq<int>>, np: int, kn: int, i: int) -> bool {
    let count = sample_count(np);
    forall|j: int|
        0 <= j < i ==> column_matches(
            rows,
            #[trigger] sampled(j, np, count),
            cols[sampled(j, np, count)],
            kn,
        )
}

/// The rows are long enough for every column check that is reached: check
/// `i` reads its column from every row once the checks before it pass.
pub open spec fn reached_columns_readable(rows: Seq<Vec<BabyBear>>, cols: Seq<Seq<int>>, np: int, kn: int) -> bool {
    let count = sample_count(np);
    forall|i: int|
        0 <= i < count && #[trigger] columns_pass_before(rows, cols, np, kn, i) ==> column_readable(
            rows,
            sampled(i, np, count),
            kn,
        )
}

/// Every sampled column matches its reference encoding.
pub open spec fn columns_pass(rows: Seq<Vec<BabyBear>>, cols: Seq<Seq<int>>, np: int, kn: int) -> bool {
    let count = sample_count(np);
    forall|i: int|
        0 <= i < count ==> column_matches(
            rows,
            #[trigger] sampled(i, np, count),
            cols[sampled(i, np, count)],
            kn,
        )
}

/// The combination of row `r` of the rows equals the combination of row
/// `r` of the reference columns.
pub open spec fn combination_matches(
    rows: Seq<Vec<BabyBear>>,
    r: int,
    cs: Seq<BabyBear>,
    cols: Seq<Seq<int>>,
) -> bool {
    row_combination(rows[r]@, cs) == columns_combination(cols, r, cs)
}

/// The first `upto` sampled rows have matching combinations.
pub open spec fn combinations_pass(
    rows: Seq<Vec<BabyBear>>,
    cs: Seq<BabyBear>,
    cols: Seq<Seq<int>>,
    kn: int,
    upto: int,
) -> bool {
    forall|i: int|
        0 <= i < upto ==> combination_matches(
            rows,
            #[trigger] sampled(i, kn, sample_count(kn)),
            cs,
            cols,
        )
}

/// Phase one: compares every sampled column with its reference encoding.
fn check_columns(
    rows: &[Vec<BabyBear>],
    kn: usize,
    k: usize,
    np: usize,
    nk: usize,
    nkn: usize,
    omega_k: BabyBear,
    omega_kn: BabyBear,
) -> (ok: bool)
    requires
        rows.len() >= kn,
        kn <= nkn,
        np <= usize::MAX / 64,
        k * np <= usize::MAX,
        is_pow2(nk as nat),
        is_pow2(nkn as nat),
        k <= nk <= nkn,
        reached_columns_readable(
            rows@,
            encoded_columns(
                k as nat,
                np as nat,
                nk as nat,
                nkn as nat,
                omega_k.value as int,
                omega_kn.value as int,
            ),
            np as int,
            kn as int,
        ),
    ensures
        ok == columns_pass(
            rows@,
            encoded_columns(
                k as nat,
                np as nat,
                nk as nat,
                nkn as nat,
                omega_k.value as int,
                omega_kn.value as int,
            ),
            np as int,
            kn as int,
        ),
{
    let ghost cols = encoded_columns(
        k as nat,
        np as nat,
        nk as nat,
        nkn as nat,
        omega_k.value as int,
        omega_kn.value as int,
    );
    let count: usize = if np < 64 {
        np
    } else {
        64
    };
    let mut check: usize = 0;
    while check < count
        invariant
            check <= count,
            count == sample_count(np as int),
            rows.len() >= kn,
            kn <= nkn,
            np <= usize::MAX / 64,
            k * np <= usize::MAX,
            is_pow2(nk as nat),
            is_pow2(nkn as nat),
            k <= nk <= nkn,
            cols == encoded_columns(
                k as nat,
                np as nat,
                nk as nat,
                nkn as nat,
                omega_k.value as int,
                omega_kn.value as int,
            ),
            reached_columns_readable(rows@, cols, np as int, kn as int),
            columns_pass_before(rows@, cols, np as int, kn as int, check as int),
        decreases count - check,
    {
        proof {
            lemma_mul_inequality(check as int, 63, np as int);
            lemma_sampled_bound(check as int, np as int, count as int);
            assert(column_readable(rows@, sampled(check as int, np as int, count as int), kn as int));
        }
        let col_idx = (check * np) / count;
        let expected = encode_column(k, np, col_idx, nk, nkn, omega_k, omega_kn);
        let mut r: usize = 0;
        while r < kn
            invariant
                r <= kn,
                rows.len() >= kn,
                kn <= nkn,
                expected.len() == nkn,
                col_idx < np,
                cols.len() == np,
                cols == encoded_columns(
                    k as nat,
                    np as nat,
                    nk as nat,
                    nkn as nat,
                    omega_k.value as int,
                    omega_kn.value as int,
                ),
                values_of(expected@) == cols[col_idx as int],
                col_idx == sampled(check as int, np as int, count as int),
                count == sample_count(np as int),
                check < count,
                column_readable(rows@, col_idx as int, kn as int),
                forall|rr: int| 0 <= rr < r ==> #[trigger] rows@[rr]@[col_idx as int].value
                    == cols[col_idx as int][rr],
            decreases kn - r,
        {
            assert(col_idx < rows@[r as int].len());
            let actual = rows[r][col_idx].value;
            assert(values_of(expected@)[r as int] == expected[r as int].value);
            if expected[r].value != actual {
                proof {
                    assert(!column_matches(rows@, col_idx as int, cols[col_idx as int], kn as int));
                    if columns_pass(rows@, cols, np as int, kn as int) {
                        assert(column_matches(
                            rows@,
                            sampled(check as int, np as int, count as int),
                            cols[sampled(check as int, np as int, count as int)],
                            kn as int,
                        ));
                    }
                }
                return false;
            }
            r += 1;
        }
        check += 1;
    }
    true
}

/// The checks are spread evenly: check `i` of `count` looks at index
/// `floor(i * total / count)`, the index `j` with
/// `j * count <= i * total < (j + 1) * count`; so the indices grow with `i`
/// and the last check lies in the last `total / count` indices or so.
pub proof fn lemma_sampled_spread(i: int, total: int, count: int)
    requires
        0 <= i < count,
        count <= total,
    ensures
        sampled(i, total, count) * count <= i * total,
        i * total < sampled(i, total, count) * count + count,
        0 <= sampled(i, total, count) < total,
{
    lemma_fundamental_div_mod(i * total, count);
    lemma_mod_bound(i * total, count);
    lemma_mul_is_commutative(count, (i * total) / count);
    lemma_sampled_bound(i, total, count);
}

/// A change to a sampled column is caught: if, on one of the first `kn`
/// rows, column `floor(i * np / count)` (for a check `i < count`, `count =
/// min(64, np)`) differs from its reference encoding, phase one fails, so
/// validation rejects the rows.
pub proof fn lemma_changed_column_rejected(
    rows: Seq<Vec<BabyBear>>,
    cols: Seq<Seq<int>>,
    np: int,
    kn: int,
    i: int,
    r: int,
)
    requires
        0 <= i < sample_count(np),
        0 <= r < kn,
        (i * np) / sample_count(np) < rows[r].len(),
        rows[r]@[(i * np) / sample_count(np)].value != cols[(i * np) / sample_count(np)][r],
    ensures
        !columns_pass(rows, cols, np, kn),
{
    let count = sample_count(np);
    assert(sampled(i, np, count) == (i * np) / count);
    if columns_pass(rows, cols, np, kn) {
        assert(column_matches(rows, sampled(i, np, count), cols[sampled(i, np, count)], kn));
    }
}

/// A change to the combination of a sampled row is caught: if the
/// combination of row `floor(i * kn / count)` (for a check `i < count`,
/// `count = min(64, kn)`) differs from that of the reference columns, phase
/// two fails, so validation rejects the rows.
pub proof fn lemma_changed_row_rejected(
    rows: Seq<Vec<BabyBear>>,
    cs: Seq<BabyBear>,
    cols: Seq<Seq<int>>,
    kn: int,
    i: int,
)
    requires
        0 <= i < sample_count(kn),
        row_combination(rows[(i * kn) / sample_count(kn)]@, cs) != columns_combination(
            cols,
            (i * kn) / sample_count(kn),
            cs,
        ),
    ensures
        !combinations_pass(rows, cs, cols, kn, sample_count(kn)),
{
    let count = sample_count(kn);
    assert(sampled(i, kn, count) == (i * kn) / count);
    if combinations_pass(rows, cs, cols, kn, count) {
        assert(combination_matches(rows, sampled(i, kn, count), cs, cols));
    }
}

/// The combination of a row is weighted position by position: a row whose
/// only nonzero entry is at `j` has combination `row[j] * cs[j]` mod p.
pub proof fn lemma_row_combination_single(row: Seq<BabyBear>, cs: Seq<BabyBear>, j: int)
    requires
        0 <= j < row.len(),
        j < cs.len(),
        forall|k: int| 0 <= k < row.len() && k != j ==> #[trigger] row[k].value == 0,
    ensures
        row_combination(row, cs) == (row[j].value * cs[j].value) % (BABYBEAR_PRIME as int),
{
    let m = if row.len() < cs.len() {
        row.len()
    } else {
        cs.len()
    };
    let f = product_terms(row, cs);
    assert forall|k: int| 0 <= k < m && k != j implies #[trigger] f(k) == 0 by {
        assert(row[k].value == 0);
    }
    lemma_sum_single(m as nat, f, j);
}

/// The combination of the reference columns at a row is weighted column by
/// column: if only column `j` is nonzero at `row`, it is
/// `cols[j][row] * cs[j]` mod p.
pub proof fn lemma_columns_combination_single(cols: Seq<Seq<int>>, row: int, cs: Seq<BabyBear>, j: int)
    requires
        0 <= j < cols.len(),
        forall|k: int| 0 <= k < cols.len() && k != j ==> #[trigger] cols[k][row] == 0,
    ensures
        columns_combination(cols, row, cs) == (cols[j][row] * cs[j].value) % (BABYBEAR_PRIME as int),
{
    let f = column_terms(cols, row, cs);
    assert forall|k: int| 0 <= k < cols.len() && k != j implies #[trigger] f(k) == 0 by {
        assert(cols[k][row] == 0);
    }
    lemma_sum_single(cols.len(), f, j);
}

/// A sampled index lies below the total.
proof fn lemma_sampled_bound(i: int, total: int, count: int)
    requires
        0 <= i < count,
        count <= total,
    ensures
        0 <= sampled(i, total, count) < total,
{
    let x = i * total;
    lemma_mul_nonnegative(i, total);
    lemma_fundamental_div_mod(x, count);
    lemma_div_pos_is_pos(x, count);
    let q = x / count;
    lemma_mul_strict_inequality(i, count, total);
    lemma_mul_is_commutative(count, total);
    lemma_mul_is_commutative(count, q);
    if q >= total {
        lemma_mul_inequality(total, q, count);
    }
}

/// The values of each column.
pub open spec fn column_values(cols: Seq<Vec<BabyBear>>) -> Seq<Seq<int>> {
    Seq::new(cols.len(), |c: int| values_of(cols[c]@))
}

/// Phase two: the combination of every one of the first `kn` rows, and of
/// the same rows of the columns, compared at the sampled rows. Gives whether
/// all sampled rows match and, if one does not, the number of the check
/// that failed.
fn check_combinations(
    rows: &[Vec<BabyBear>],
    kn: usize,
    cols: &Vec<Vec<BabyBear>>,
    cs: &Vec<BabyBear>,
) -> (r: (bool, usize))
    requires
        rows.len() >= kn,
        kn <= usize::MAX / 64,
        cols.len() == cs.len(),
        forall|c: int| 0 <= c < cols.len() ==> #[trigger] cols[c].len() >= kn,
    ensures
        r.0 == combinations_pass(rows@, cs@, column_values(cols@), kn as int, sample_count(kn as int)),
        r.0 ==> r.1 == sample_count(kn as int),
        !r.0 ==> r.1 < sample_count(kn as int) && !combination_matches(
            rows@,
            sampled(r.1 as int, kn as int, sample_count(kn as int)),
            cs@,
            column_values(cols@),
        ) && combinations_pass(rows@, cs@, column_values(cols@), kn as int, r.1 as int),
{
    let ghost colvals = column_values(cols@);
    let ghost p = BABYBEAR_PRIME as int;
    let np = cols.len();
    let mut from_rows: Vec<BabyBear> = Vec::new();
    let mut from_cols: Vec<BabyBear> = Vec::new();
    let mut row: usize = 0;
    while row < kn
        invariant
            row <= kn,
            rows.len() >= kn,
            np == cols.len(),
            cols.len() == cs.len(),
            colvals == column_values(cols@),
            p == BABYBEAR_PRIME,
            forall|c: int| 0 <= c < cols.len() ==> #[trigger] cols[c].len() >= kn,
            from_rows.len() == row,
            from_cols.len() == row,
            forall|i: int| 0 <= i < row ==> #[trigger] from_rows[i].value == row_combination(rows@[i]@, cs@),
            forall|i: int|
                0 <= i < row ==> #[trigger] from_cols[i].value == columns_combination(colvals, i, cs@),
        decreases kn - row,
    {
        from_rows.push(combine_values(&rows[row], cs));
        let ghost f = column_terms(colvals, row as int, cs@);
        let mut acc = BabyBear::zero();
        let mut c: usize = 0;
        while c < np
            invariant
                c <= np,
                np == cols.len(),
                cols.len() == cs.len(),
                row < kn,
                colvals == column_values(cols@),
                p == BABYBEAR_PRIME,
                f == column_terms(colvals, row as int, cs@),
                forall|cc: int| 0 <= cc < cols.len() ==> #[trigger] cols[cc].len() >= kn,
                acc.value == sum(c as nat, f) % p,
            decreases np - c,
        {
            assert(cols[c as int].len() >= kn);
            let t = cols[c][row] * cs[c];
            proof {
                assert(colvals[c as int][row as int] == cols[c as int]@[row as int].value);
                lemma_sum_step_mod(c as nat, f, acc.value as int, t.value as int);
            }
            acc = acc + t;
            c += 1;
        }
        from_cols.push(acc);
        row += 1;
    }
    let count: usize = if kn < 64 {
        kn
    } else {
        64
    };
    let mut check: usize = 0;
    while check < count
        invariant
            check <= count,
            count == sample_count(kn as int),
            count <= kn,
            kn <= usize::MAX / 64,
            from_rows.len() == kn,
            from_cols.len() == kn,
            colvals == column_values(cols@),
            forall|i: int| 0 <= i < kn ==> #[trigger] from_rows[i].value == row_combination(rows@[i]@, cs@),
            forall|i: int|
                0 <= i < kn ==> #[trigger] from_cols[i].value == columns_combination(colvals, i, cs@),
            combinations_pass(rows@, cs@, colvals, kn as int, check as int),
        decreases count - check,
    {
        proof {
            lemma_sampled_bound(check as int, kn as int, count as int);
            lemma_mul_inequality(check as int, 63, kn as int);
        }
        let row_idx = (check * kn) / count;
        if from_rows[row_idx].value != from_cols[row_idx].value {
            return (false, check);
        }
        proof {
            assert(combination_matches(rows@, row_idx as int, cs@, colvals));
            assert forall|i: int| 0 <= i < check + 1 implies combination_matches(
                rows@,
                #[trigger] sampled(i, kn as int, sample_count(kn as int)),
                cs@,
                colvals,
            ) by {
                if i < check {
                    assert(combination_matches(
                        rows@,
                        sampled(i, kn as int, sample_count(kn as int)),
                        cs@,
                        colvals,
                    ));
                }
            }
        }
        check += 1;
    }
    (true, count)
}

/// The least power of two at least `a` is at most the one for any `b >= a`.
proof fn lemma_next_pow2_monotone(a: nat, b: nat)
    requires
        a <= b,
    ensures
        next_pow2(a) <= next_pow2(b),
{
    lemma_next_pow2(a);
    lemma_next_pow2(b);
    if next_pow2(a) > next_pow2(b) {
        crate::ntt::transform::lemma_pow2_between(next_pow2(b), next_pow2(a));
        crate::ntt::transform::lemma_pow2_pos(next_pow2(b));
    }
}

/// The root of unity that `get_root_of_unity` gives for a power of two
/// `m <= 2^27`.
fn root_for_size(m: usize) -> (w: BabyBear)
    requires
        is_pow2(m as nat),
        m <= pow2(27),
    ensures
        w.value == root_for(m as nat),
{
    let log = log2_exact(m);
    proof {
        if log > 27 {
            vstd::arithmetic::power2::lemma_pow2_strictly_increases(27, log as nat);
        }
        lemma_log2_spec(log as nat);
        reveal(root_for);
    }
    BabyBear::get_root_of_unity(log as u32)
}

/// Validates an encoding of the `k + n` rows (each with the
/// `row_size / 4` values of a row): phase one compares up to 64 columns,
/// spread evenly, with their reference encoding (the inverse transform of
/// the column's data values, zero-padded, then the forward transform); phase
/// two derives coefficients from the commitment to the rows and compares the
/// combination of up to 64 rows, spread evenly, with the combination of the
/// reference columns. Gives whether both phases pass, and the number of
/// checks made: every column check when phase one fails, the column checks
/// plus the row checks up to the failing one (or all of them) otherwise.
/// A column check reads its column from every row, so the rows must be long
/// enough for each column check that is reached (the ones after a failing
/// check are not).
#[verifier::rlimit(60)]
#[verifier::spinoff_prover]
pub fn validate_zoda_encoding(config: &EncodingConfig, encoded_rows: &[Vec<BabyBear>]) -> (r: (
    bool,
    usize,
))
    requires
        config.k + config.n <= pow2(27),
        config.k + config.n <= usize::MAX / 64,
        config.row_size / 4 <= usize::MAX / 64,
        config.k * (config.row_size / 4) <= usize::MAX,
        encoded_rows.len() >= config.k + config.n,
        reached_columns_readable(
            encoded_rows@,
            reference_columns(
                config.k as nat,
                (config.row_size / 4) as nat,
                next_pow2(config.k as nat),
                next_pow2((config.k + config.n) as nat),
            ),
            (config.row_size / 4) as int,
            (config.k + config.n) as int,
        ),
    ensures
        ({
            let k = config.k as nat;
            let np = (config.row_size / 4) as nat;
            let kn = (config.k + config.n) as nat;
            let cols = reference_columns(k, np, next_pow2(k), next_pow2(kn));
            let cs = coefficients_for(encoded_rows@, np);
            let ncc = sample_count(np as int);
            let nrc = sample_count(kn as int);
            let phase1 = columns_pass(encoded_rows@, cols, np as int, kn as int);
            &&& r.0 == (phase1 && combinations_pass(encoded_rows@, cs, cols, kn as int, nrc))
            &&& !phase1 ==> r.1 == ncc
            &&& phase1 && r.0 ==> r.1 == ncc + nrc
            &&& phase1 && !r.0 ==> ncc <= r.1 < ncc + nrc && !combination_matches(
                encoded_rows@,
                sampled(r.1 - ncc, kn as int, nrc),
                cs,
                cols,
            ) && combinations_pass(encoded_rows@, cs, cols, kn as int, r.1 - ncc)
        }),
{
    let k = config.k;
    let kn = config.total_rows();
    let np = config.num_positions();
    proof {
        vstd::arithmetic::power2::lemma2_to64();
        lemma_next_pow2_bound(kn as nat);
        lemma_next_pow2_monotone(k as nat, kn as nat);
        lemma_next_pow2(k as nat);
    }
    let nk = config.ntt_size_k();
    let nkn = config.ntt_size_kn();
    let omega_k = root_for_size(nk);
    let omega_kn = root_for_size(nkn);
    let ghost cols = reference_columns(k as nat, np as nat, nk as nat, nkn as nat);
    let ncc: usize = if np < 64 {
        np
    } else {
        64
    };
    let phase1 = check_columns(encoded_rows, kn, k, np, nk, nkn, omega_k, omega_kn);
    if !phase1 {
        return (false, ncc);
    }
    let data_root = compute_data_root(encoded_rows);
    let root_str = data_root.as_str();
    let coefficients = generate_deterministic_coefficients(root_str, np);
    proof {
        lemma_coefficients_for(encoded_rows@, root_str, coefficients@, np as nat);
    }
    let mut encoded: Vec<Vec<BabyBear>> = Vec::new();
    let mut c: usize = 0;
    while c < np
        invariant
            c <= np,
            k * np <= usize::MAX,
            is_pow2(nk as nat),
            is_pow2(nkn as nat),
            k <= nk <= nkn,
            kn <= nkn,
            omega_k.value == root_for(nk as nat),
            omega_kn.value == root_for(nkn as nat),
            cols == reference_columns(k as nat, np as nat, nk as nat, nkn as nat),
            encoded.len() == c,
            forall|j: int| 0 <= j < c ==> #[trigger] encoded[j].len() == nkn,
            forall|j: int| 0 <= j < c ==> values_of(#[trigger] encoded[j]@) == cols[j],
        decreases np - c,
    {
        let col = encode_column(k, np, c, nk, nkn, omega_k, omega_kn);
        encoded.push(col);
        c += 1;
    }
    assert(column_values(encoded@) =~= cols);
    let (phase2, checks) = check_combinations(encoded_rows, kn, &encoded, &coefficients);
    (phase2, ncc + checks)
}

/// A correct encoding passes validation: when every one of the first
/// `k + n` rows holds the `row_size / 4` values of the reference encoding of
/// the columns, both phases pass.
pub proof fn lemma_reference_encoding_validates(
    rows: Seq<Vec<BabyBear>>,
    k: nat,
    n: nat,
    np: nat,
)
    requires
        rows.len() >= k + n,
        forall|r: int| 0 <= r < k + n ==> #[trigger] rows[r].len() == np,
        forall|r: int, c: int|
            0 <= r < k + n && 0 <= c < np ==> #[trigger] rows[r]@[c].value == reference_columns(
                k,
                np,
                next_pow2(k),
                next_pow2(k + n),
            )[c][r],
    ensures
        columns_pass(rows, reference_columns(k, np, next_pow2(k), next_pow2(k + n)), np as int, (k + n) as int),
        combinations_pass(
            rows,
            coefficients_for(rows, np),
            reference_columns(k, np, next_pow2(k), next_pow2(k + n)),
            (k + n) as int,
            sample_count((k + n) as int),
        ),
{
    let kn = (k + n) as int;
    let cols = reference_columns(k, np, next_pow2(k), next_pow2(k + n));
    let cs = coefficients_for(rows, np);
    let ncc = sample_count(np as int);
    assert forall|i: int| 0 <= i < ncc implies column_matches(
        rows,
        #[trigger] sampled(i, np as int, ncc),
        cols[sampled(i, np as int, ncc)],
        kn,
    ) by {
        lemma_sampled_bound(i, np as int, ncc);
    }
    let nrc = sample_count(kn);
    assert forall|i: int| 0 <= i < nrc implies combination_matches(
        rows,
        #[trigger] sampled(i, kn, nrc),
        cs,
        cols,
    ) by {
        lemma_sampled_bound(i, kn, nrc);
        lemma_row_combination_matches(rows, cols, cs, sampled(i, kn, nrc), np);
    }
}

/// A row that holds row `r` of the columns has the same combination.
proof fn lemma_row_combination_matches(
    rows: Seq<Vec<BabyBear>>,
    cols: Seq<Seq<int>>,
    cs: Seq<BabyBear>,
    r: int,
    np: nat,
)
    requires
        0 <= r < rows.len(),
        rows[r].len() == np,
        cols.len() == np,
        cs.len() == np,
        forall|c: int| 0 <= c < np ==> #[trigger] rows[r]@[c].value == cols[c][r],
    ensures
        combination_matches(rows, r, cs, cols),
{
    assert forall|c: int| 0 <= c < np implies #[trigger] product_terms(rows[r]@, cs)(c) == column_terms(
        cols,
        r,
        cs,
    )(c) by {
        assert(rows[r]@[c].value == cols[c][r]);
    }
    lemma_sum_ext(np, product_terms(rows[r]@, cs), column_terms(cols, r, cs));
}

/// The coefficients generated from the commitment string to the rows are
/// `coefficients_for` the rows.
proof fn lemma_coefficients_for(rows: Seq<Vec<BabyBear>>, root: &str, cs: Seq<BabyBear>, np: nat)
    requires
        root@ == hex_chars(sha256_spec(rows_bytes(rows))),
        cs.len() == np,
        forall|i: int| 0 <= i < np ==> #[trigger] cs[i].value == coefficient_spec(root.spec_bytes(), i),
    ensures
        cs == coefficients_for(rows, np),
{
    assert forall|i: int| 0 <= i < np implies cs[i] == coefficients_for(rows, np)[i] by {
        lemma_coefficient_bound(root.spec_bytes(), i);
        assert(root.spec_bytes() == vstd::utf8::encode_utf8(hex_chars(sha256_spec(rows_bytes(rows)))));
        let c = coefficient_spec(root.spec_bytes(), i);
        assert(coefficients_for(rows, np)[i].value == c as u64);
        assert(cs[i].value == c);
    }
    assert(cs =~= coefficients_for(rows, np));
}

/// The values of a `u64` sequence as integers.
pub open spec fn u64_ints(s: Seq<u64>) -> Seq<int> {
    s.map_values(|x: u64| x as int)
}

/// The host input of the column encoding: every column of the data square,
/// its `k` values followed by zeros up to `next_pow2(k)`, one column after
/// another.
pub fn encoding_input(config: &EncodingConfig) -> (r: Vec<u64>)
    requires
        config.k <= usize::MAX / 2 + 1,
        config.k * (config.row_size / 4) <= usize::MAX,
        (config.row_size / 4) * next_pow2(config.k as nat) <= usize::MAX,
    ensures
        ({
            let np = config.row_size / 4;
            let nk = next_pow2(config.k as nat);
            &&& r.len() == np * nk
            &&& forall|c: int, row: int|
                0 <= c < np && 0 <= row < nk ==> #[trigger] r[c * nk + row] == (if row < config.k {
                    input_value(np as int, row, c)
                } else {
                    0
                })
        }),
{
    let k = config.k;
    let np = config.num_positions();
    let nk = config.ntt_size_k();
    proof {
        lemma_next_pow2(k as nat);
    }
    let ghost target = Seq::new(
        (np * nk) as nat,
        |i: int|
            if i % (nk as int) < k {
                input_value(np as int, i % (nk as int), i / (nk as int))
            } else {
                0
            },
    );
    let mut r: Vec<u64> = Vec::new();
    let mut col: usize = 0;
    while col < np
        invariant
            col <= np,
            k <= nk,
            nk >= 1,
            k * np <= usize::MAX,
            np * nk <= usize::MAX,
            target.len() == np * nk,
            target == Seq::new(
                (np * nk) as nat,
                |i: int|
                    if i % (nk as int) < k {
                        input_value(np as int, i % (nk as int), i / (nk as int))
                    } else {
                        0
                    },
            ),
            u64_ints(r@) == target.take(col * nk),
        decreases np - col,
    {
        proof {
            lemma_mul_inequality(col as int + 1, np as int, nk as int);
            lemma_mul_is_distributive_add_other_way(nk as int, col as int, 1);
        }
        let mut row: usize = 0;
        while row < nk
            invariant
                row <= nk,
                col < np,
                k <= nk,
                k * np <= usize::MAX,
                (col + 1) * nk <= np * nk,
                (col + 1) * nk == col * nk + nk,
                target.len() == np * nk,
                target == Seq::new(
                    (np * nk) as nat,
                    |i: int|
                        if i % (nk as int) < k {
                            input_value(np as int, i % (nk as int), i / (nk as int))
                        } else {
                            0
                        },
                ),
                u64_ints(r@) == target.take(col * nk + row),
            decreases nk - row,
        {
            let ghost before = r@;
            assert(col * nk + row < np * nk);
            assert(target.take(col * nk + row).len() == col * nk + row);
            assert(u64_ints(r@).len() == r@.len());
            assert(r@.len() == col * nk + row);
            let x: u64 = if row < k {
                proof {
                    lemma_mul_inequality(row as int, k as int - 1, np as int);
                    lemma_mul_is_distributive_sub_other_way(np as int, k as int, 1);
                }
                ((row * np + col) % 2013265921) as u64
            } else {
                0
            };
            r.push(x);
            proof {
                crate::zoda::grid::lemma_grid_index(col as int, row as int, nk as int);
                assert(u64_ints(r@) =~= target.take(col * nk + row + 1)) by {
                    assert forall|i: int| 0 <= i < col * nk + row + 1 implies #[trigger] u64_ints(r@)[i]
                        == target.take(col * nk + row + 1)[i] by {
                        if i < col * nk + row {
                            assert(r@[i] == before[i]);
                            assert(u64_ints(before)[i] == target.take(
                                col * nk + row,
                            )[i]);
                        }
                    }
                }
            }
            row += 1;
        }
        col += 1;
    }
    proof {
        assert forall|c: int, row: int| 0 <= c < np && 0 <= row < nk implies #[trigger] r@[c * nk
            + row] == (if row < config.k {
            input_value(np as int, row, c)
        } else {
            0
        }) by {
            crate::zoda::grid::lemma_grid_index(c, row, nk as int);
            lemma_mul_inequality(c + 1, np as int, nk as int);
            lemma_mul_is_distributive_add_other_way(nk as int, c, 1);
            assert(u64_ints(r@)[c * nk + row] == target[c * nk + row]);
        }
    }
    r
}

/// The encoded rows from the column-major encoder output: row `row` holds
/// `output[c * next_pow2(k + n) + row]` mod p for every column `c`.
pub fn rows_from_output(config: &EncodingConfig, output: &Vec<u64>) -> (rows: Vec<Vec<BabyBear>>)
    requires
        config.k + config.n <= usize::MAX / 2,
        (config.row_size / 4) * next_pow2((config.k + config.n) as nat) <= output.len(),
    ensures
        ({
            let np = config.row_size / 4;
            let nkn = next_pow2((config.k + config.n) as nat);
            &&& rows.len() == config.k + config.n
            &&& forall|row: int| 0 <= row < config.k + config.n ==> #[trigger] rows[row].len() == np
            &&& forall|row: int, c: int|
                0 <= row < config.k + config.n && 0 <= c < np ==> #[trigger] rows[row]@[c].value
                    == output[c * nkn + row] % BABYBEAR_PRIME
        }),
{
    let kn = config.total_rows();
    let np = config.num_positions();
    let nkn = config.ntt_size_kn();
    proof {
        lemma_next_pow2(kn as nat);
    }
    let mut rows: Vec<Vec<BabyBear>> = Vec::new();
    let mut row: usize = 0;
    while row < kn
        invariant
            row <= kn,
            kn <= nkn,
            np * nkn <= output.len(),
            rows.len() == row,
            forall|i: int| 0 <= i < row ==> #[trigger] rows[i].len() == np,
            forall|i: int, c: int|
                0 <= i < row && 0 <= c < np ==> #[trigger] rows[i]@[c].value == output[c * nkn + i]
                    % BABYBEAR_PRIME,
        decreases kn - row,
    {
        let mut values: Vec<BabyBear> = Vec::new();
        let mut c: usize = 0;
        while c < np
            invariant
                c <= np,
                row < kn,
                kn <= nkn,
                np * nkn <= output.len(),
                values.len() == c,
                forall|j: int| 0 <= j < c ==> #[trigger] values@[j].value == output[j * nkn + row]
                    % BABYBEAR_PRIME,
            decreases np - c,
        {
            proof {
                lemma_mul_inequality(c as int + 1, np as int, nkn as int);
                lemma_mul_is_distributive_add_other_way(nkn as int, c as int, 1);
            }
            values.push(BabyBear::new(output[c * nkn + row]));
            c += 1;
        }
        rows.push(values);
        row += 1;
    }
    rows
}

/// The chunk layout of a benchmark run: `data_size_kb` kilobytes at four
/// bytes per element split into `k` chunks gives the elements per chunk; the
/// transform size is `next_pow2(n)`; `k` transforms of that size at eight
/// bytes per value take the device bytes.
pub fn chunk_params(data_size_kb: usize, k: usize, n: usize) -> (r: (usize, usize, usize))
    requires
        k > 0,
        data_size_kb * 1024 <= usize::MAX,
        n <= usize::MAX / 2 + 1,
        k * next_pow2(n as nat) * 8 <= usize::MAX,
    ensures
        r.0 == (data_size_kb * 1024 / 4) as int / (k as int),
        r.1 == next_pow2(n as nat),
        r.2 == k * next_pow2(n as nat) * 8,
{
    let bytes_per_element: usize = 4;
    let total_elements = (data_size_kb * 1024) / bytes_per_element;
    let elements_per_chunk = total_elements / k;
    let ntt_size = next_power_of_two(n);
    proof {
        lemma_next_pow2(n as nat);
        lemma_mul_inequality(1, k as int, ntt_size as int);
        lemma_mul_inequality(1, 8, (k * ntt_size) as int);
    }
    let total_gpu_bytes = k * ntt_size * 8;
    (elements_per_chunk, ntt_size, total_gpu_bytes)
}

/// Why a benchmark configuration is skipped.
#[derive(Debug, Clone, Copy, PartialEq, Eq, Structural)]
pub enum ChunkSkip {
    /// The transforms need more than 256 MiB of device memory.
    TooMuchMemory,
    /// A chunk has fewer than 16 elements.
    ChunkTooSmall,
    /// A chunk does not fit in one transform.
    ChunkTooLarge,
}

/// Whether a configuration with this chunk layout is skipped, and why:
/// first for device memory above 256 MiB, then for chunks of fewer than 16
/// elements, then for chunks larger than the transform.
pub fn chunk_skip(total_gpu_bytes: usize, elements_per_chunk: usize, ntt_size: usize) -> (r: Option<ChunkSkip>)
    ensures
        r == (if total_gpu_bytes > 268435456 {
            Some(ChunkSkip::TooMuchMemory)
        } else if elements_per_chunk < 16 {
            Some(ChunkSkip::ChunkTooSmall)
        } else if elements_per_chunk > ntt_size {
            Some(ChunkSkip::ChunkTooLarge)
        } else {
            None
        }),
{
    if total_gpu_bytes > 268435456 {
        Some(ChunkSkip::TooMuchMemory)
    } else if elements_per_chunk < 16 {
        Some(ChunkSkip::ChunkTooSmall)
    } else if elements_per_chunk > ntt_size {
        Some(ChunkSkip::ChunkTooLarge)
    } else {
        None
    }
}

/// The data of a benchmark run: `k` chunks of `ntt_size` values, chunk `c`
/// holding `(c * chunk_size + e) mod 1000` at `e < chunk_size` and zeros
/// after (so a chunk longer than `ntt_size` is cut).
pub fn benchmark_chunks(k: usize, chunk_size: usize, ntt_size: usize) -> (r: Vec<BabyBear>)
    requires
        k * ntt_size <= usize::MAX,
        k * chunk_size <= usize::MAX,
    ensures
        r.len() == k * ntt_size,
        forall|c: int, e: int|
            0 <= c < k && 0 <= e < ntt_size ==> #[trigger] r@[c * ntt_size + e].value == (if e < chunk_size {
                (c * chunk_size + e) % 1000
            } else {
                0
            }),
        all_canonical(r@),
{
    let mut r: Vec<BabyBear> = Vec::new();
    let mut c: usize = 0;
    while c < k
        invariant
            c <= k,
            k * ntt_size <= usize::MAX,
            k * chunk_size <= usize::MAX,
            r.len() == c * ntt_size,
            forall|c2: int, e: int|
                0 <= c2 < c && 0 <= e < ntt_size ==> #[trigger] r@[c2 * ntt_size + e].value == (if e
                    < chunk_size {
                    (c2 * chunk_size + e) % 1000
                } else {
                    0
                }),
            all_canonical(r@),
        decreases k - c,
    {
        let mut e: usize = 0;
        let ghost start = r.len();
        proof {
            lemma_mul_inequality(c as int, k as int - 1, ntt_size as int);
            lemma_mul_is_distributive_sub_other_way(ntt_size as int, k as int, 1);
            lemma_mul_inequality(c as int, k as int - 1, chunk_size as int);
            lemma_mul_is_distributive_sub_other_way(chunk_size as int, k as int, 1);
        }
        while e < ntt_size
            invariant
                c < k,
                e <= ntt_size,
                start == c * ntt_size,
                start + ntt_size <= k * ntt_size,
                c * chunk_size + chunk_size <= k * chunk_size,
                k * chunk_size <= usize::MAX,
                r.len() == start + e,
                forall|c2: int, e2: int|
                    0 <= c2 < c && 0 <= e2 < ntt_size ==> #[trigger] r@[c2 * ntt_size + e2].value == (if e2
                        < chunk_size {
                        (c2 * chunk_size + e2) % 1000
                    } else {
                        0
                    }),
                forall|e2: int|
                    0 <= e2 < e ==> #[trigger] r@[start + e2].value == (if e2 < chunk_size {
                        (c * chunk_size + e2) % 1000
                    } else {
                        0
                    }),
                all_canonical(r@),
            decreases ntt_size - e,
        {
            let v = if e < chunk_size {
                ((c * chunk_size + e) % 1000) as u64
            } else {
                0
            };
            let ghost before = r@;
            r.push(BabyBear::new(v));
            proof {
                lemma_small_mod(v as nat, BABYBEAR_PRIME as nat);
                assert forall|c2: int, e2: int| 0 <= c2 < c && 0 <= e2 < ntt_size implies #[trigger] r@[c2
                    * ntt_size + e2].value == (if e2 < chunk_size {
                    (c2 * chunk_size + e2) % 1000
                } else {
                    0
                }) by {
                    lemma_mul_inequality(c2, c as int - 1, ntt_size as int);
                    lemma_mul_is_distributive_sub_other_way(ntt_size as int, c as int, 1);
                    assert(r@[c2 * ntt_size + e2] == before[c2 * ntt_size + e2]);
                }
                assert forall|e2: int| 0 <= e2 < e + 1 implies #[trigger] r@[start + e2].value == (if e2
                    < chunk_size {
                    (c * chunk_size + e2) % 1000
                } else {
                    0
                }) by {
                    if e2 < e {
                        assert(r@[start + e2] == before[start + e2]);
                    }
                }
            }
            e += 1;
        }
        proof {
            assert forall|c2: int, e2: int| 0 <= c2 < c + 1 && 0 <= e2 < ntt_size implies #[trigger] r@[c2
                * ntt_size + e2].value == (if e2 < chunk_size {
                (c2 * chunk_size + e2) % 1000
            } else {
                0
            }) by {
                if c2 == c {
                    assert(r@[start + e2].value == r@[c2 * ntt_size + e2].value);
                }
            }
            lemma_mul_is_distributive_add_other_way(ntt_size as int, c as int, 1);
        }
        c += 1;
    }
    r
}

/// Chunk `c` (of `size` elements) of `s`.
pub open spec fn chunk_of(s: Seq<BabyBear>, c: int, size: int) -> Seq<BabyBear> {
    s.subrange(c * size, c * size + size)
}

/// Encodes every chunk of `ntt_size` values in place: the inverse
/// transform with `omega`, then the forward transform with `omega`.
pub fn encode_chunks(data: &mut Vec<BabyBear>, ntt_size: usize, omega: BabyBear)
    requires
        is_pow2(ntt_size as nat),
        old(data).len() % ntt_size == 0,
        all_canonical(old(data)@),
    ensures
        final(data).len() == old(data).len(),
        forall|c: int|
            0 <= c < (old(data).len() as int) / (ntt_size as int) ==> values_of(#[trigger] chunk_of(final(data)@, c, ntt_size as int))
                == ntt_spec(intt_spec(values_of(chunk_of(old(data)@, c, ntt_size as int)), omega.value as int), omega.value as int),
{
    let ghost d0 = data@;
    let total = data.len();
    let chunks = total / ntt_size;
    proof {
        crate::ntt::transform::lemma_pow2_pos(ntt_size as nat);
        lemma_fundamental_div_mod(total as int, ntt_size as int);
        lemma_mul_is_commutative(ntt_size as int, chunks as int);
    }
    let mut c: usize = 0;
    while c < chunks
        invariant
            is_pow2(ntt_size as nat),
            ntt_size >= 1,
            data.len() == total,
            d0.len() == total,
            total == chunks * ntt_size,
            all_canonical(d0),
            c <= chunks,
            forall|c2: int| 0 <= c2 < c ==> values_of(#[trigger] chunk_of(data@, c2, ntt_size as int))
                == ntt_spec(intt_spec(values_of(chunk_of(d0, c2, ntt_size as int)), omega.value as int), omega.value as int),
            forall|i: int| c * ntt_size <= i < total ==> #[trigger] data@[i] == d0[i],
        decreases chunks - c,
    {
        proof {
            lemma_mul_inequality(c as int, chunks as int - 1, ntt_size as int);
            lemma_mul_is_distributive_sub_other_way(ntt_size as int, chunks as int, 1);
        }
        let start = c * ntt_size;
        let mut chunk: Vec<BabyBear> = Vec::new();
        let mut i: usize = 0;
        while i < ntt_size
            invariant
                start == c * ntt_size,
                start + ntt_size <= total,
                data.len() == total,
                i <= ntt_size,
                chunk@ == data@.subrange(start as int, start + i),
            decreases ntt_size - i,
        {
            chunk.push(data[start + i]);
            i += 1;
            assert(chunk@ =~= data@.subrange(start as int, start + i));
        }
        let ghost chunk0 = chunk@;
        assert(chunk0 =~= chunk_of(d0, c as int, ntt_size as int));
        assert forall|j: int| 0 <= j < chunk0.len() / 2 implies chunk0[j].value + BABYBEAR_PRIME <= u64::MAX by {
            assert(d0[c * ntt_size + j].value < BABYBEAR_PRIME);
        }
        intt(chunk.as_mut_slice(), omega);
        assert forall|j: int| 0 <= j < chunk.len() / 2 implies chunk@[j].value + BABYBEAR_PRIME <= u64::MAX by {
            assert(values_of(chunk@)[j] == intt_spec(values_of(chunk0), omega.value as int)[j]);
        }
        let ghost mid = values_of(chunk@);
        assert(all_canonical(chunk@)) by {
            assert forall|j: int| 0 <= j < chunk.len() implies #[trigger] chunk@[j].value < BABYBEAR_PRIME by {
                assert(values_of(chunk@)[j] == intt_spec(values_of(chunk0), omega.value as int)[j]);
            }
        }
        ntt(chunk.as_mut_slice(), omega);
        assert(values_of(chunk@) =~= reduce_all(values_of(chunk@))) by {
            assert forall|j: int| 0 <= j < chunk.len() implies values_of(chunk@)[j] == reduce_all(values_of(chunk@))[j] by {
                lemma_small_mod(chunk@[j].value as nat, BABYBEAR_PRIME as nat);
            }
        }
        assert(values_of(chunk@) == ntt_spec(intt_spec(values_of(chunk0), omega.value as int), omega.value as int));
        assert(reduce_all(mid) =~= mid) by {
            assert forall|j: int| 0 <= j < mid.len() implies reduce_all(mid)[j] == mid[j] by {
                lemma_small_mod(mid[j] as nat, BABYBEAR_PRIME as nat);
            }
        }
        let ghost before = data@;
        let mut j: usize = 0;
        while j < ntt_size
            invariant
                start == c * ntt_size,
                start + ntt_size <= total,
                data.len() == total,
                chunk.len() == ntt_size,
                before.len() == total,
                j <= ntt_size,
                forall|t: int| 0 <= t < j ==> #[trigger] data@[start + t] == chunk@[t],
                forall|t: int| 0 <= t < total && !(start <= t < start + j) ==> #[trigger] data@[t] == before[t],
            decreases ntt_size - j,
        {
            data.set(start + j, chunk[j]);
            j += 1;
        }
        proof {
            assert forall|t: int| 0 <= t < ntt_size implies #[trigger] chunk_of(data@, c as int, ntt_size as int)[t]
                == chunk@[t] by {
                assert(data@[start + t] == chunk@[t]);
            }
            assert(chunk_of(data@, c as int, ntt_size as int) =~= chunk@);
            assert forall|c2: int| 0 <= c2 < c + 1 implies values_of(#[trigger] chunk_of(data@, c2, ntt_size as int))
                == ntt_spec(intt_spec(values_of(chunk_of(d0, c2, ntt_size as int)), omega.value as int), omega.value as int) by {
                if c2 < c {
                    lemma_mul_inequality(c2, c as int - 1, ntt_size as int);
                    lemma_mul_is_distributive_sub_other_way(ntt_size as int, c as int, 1);
                    assert(chunk_of(data@, c2, ntt_size as int) =~= chunk_of(before, c2, ntt_size as int));
                }
            }
            lemma_mul_is_distributive_add_other_way(ntt_size as int, c as int, 1);
        }
        c += 1;
    }
}

/// A shard layout: `data_size_mb` megabytes split into `k` data shards,
/// extended `expansion` times.
#[derive(Debug, Clone, Copy)]
pub struct ShardConfig {
    pub data_size_mb: usize,
    pub k: usize,
    pub expansion: usize,
}

impl ShardConfig {
    /// The number of encoded shards: `k * expansion`.
    pub fn n(&self) -> (r: usize)
        requires
            self.k * self.expansion <= usize::MAX,
        ensures
            r == self.k * self.expansion,
    {
        self.k * self.expansion
    }

    /// The field elements per shard: the bytes split over `k` shards, four
    /// bytes each.
    pub fn shard_elements(&self) -> (r: usize)
        requires
            self.k > 0,
            self.data_size_mb * 1048576 <= usize::MAX,
        ensures
            r == self.data_size_mb * 1048576 / (self.k as int) / 4,
    {
        (self.data_size_mb * 1024 * 1024) / self.k / 4
    }
}

/// Entry `j` of block `b` of a sequence of blocks of `width` lies at
/// `b * width + j`, below the end of block `b`, which is at most
/// `blocks * width`.
proof fn lemma_block_entry(b: int, width: int, j: int, blocks: int)
    requires
        0 <= b < blocks,
        0 <= j < width,
    ensures
        0 <= b * width,
        b * width + j < (b + 1) * width,
        (b + 1) * width == b * width + width,
        (b + 1) * width <= blocks * width,
{
    lemma_mul_nonnegative(b, width);
    lemma_mul_is_distributive_add_other_way(width, b, 1);
    lemma_mul_inequality(b + 1, blocks, width);
}

/// The host input of the batched shard encoding: position `pos` of data
/// shard `s` holds `(s * shard_elements + pos) mod p`, stored at
/// `pos * k + s` (the `k` values of a position side by side).
pub fn shard_input(k: usize, shard_elements: usize) -> (r: Vec<u64>)
    requires
        shard_elements * k <= usize::MAX,
    ensures
        r.len() == shard_elements * k,
        forall|pos: int, s: int|
            0 <= pos < shard_elements && 0 <= s < k ==> #[trigger] r[pos * k + s] == (s * shard_elements + pos)
                % (BABYBEAR_PRIME as int),
{
    let mut r: Vec<u64> = Vec::new();
    let mut pos: usize = 0;
    proof {
        lemma_mul_basics(k as int);
    }
    while pos < shard_elements
        invariant
            pos <= shard_elements,
            shard_elements * k <= usize::MAX,
            r.len() == pos * k,
            forall|pp: int, s: int|
                0 <= pp < pos && 0 <= s < k ==> #[trigger] r[pp * k + s] == (s * shard_elements + pp) % (
                BABYBEAR_PRIME as int),
        decreases shard_elements - pos,
    {
        let mut s: usize = 0;
        proof {
            lemma_mul_inequality(pos as int + 1, shard_elements as int, k as int);
            lemma_mul_is_distributive_add_other_way(k as int, pos as int, 1);
            lemma_mul_is_commutative(shard_elements as int, k as int);
        }
        while s < k
            invariant
                pos < shard_elements,
                s <= k,
                shard_elements * k <= usize::MAX,
                (pos + 1) * k <= shard_elements * k,
                (pos + 1) * k == pos * k + k,
                r.len() == pos * k + s,
                forall|pp: int, ss: int|
                    0 <= pp < pos && 0 <= ss < k ==> #[trigger] r[pp * k + ss] == (ss * shard_elements + pp) % (
                    BABYBEAR_PRIME as int),
                forall|ss: int| 0 <= ss < s ==> #[trigger] r[pos * k + ss] == (ss * shard_elements + pos) % (
                    BABYBEAR_PRIME as int),
            decreases k - s,
        {
            proof {
                lemma_mul_inequality(s as int, k as int - 1, shard_elements as int);
                lemma_mul_is_distributive_sub_other_way(shard_elements as int, k as int, 1);
                lemma_mul_is_commutative(shard_elements as int, k as int);
            }
            let v = (s * shard_elements + pos) as u64 % BABYBEAR_PRIME;
            let ghost before = r@;
            r.push(v);
            proof {
                assert forall|pp: int, ss: int| 0 <= pp < pos && 0 <= ss < k implies #[trigger] r[pp * k + ss]
                    == (ss * shard_elements + pp) % (BABYBEAR_PRIME as int) by {
                    lemma_block_entry(pp, k as int, ss, pos as int);
                    assert(r@[pp * k + ss] == before[pp * k + ss]);
                }
                assert forall|ss: int| 0 <= ss < s + 1 implies #[trigger] r[pos * k + ss] == (ss * shard_elements
                    + pos) % (BABYBEAR_PRIME as int) by {
                    if ss < s {
                        assert(r@[pos * k + ss] == before[pos * k + ss]);
                    }
                }
            }
            s += 1;
        }
        pos += 1;
    }
    r
}

/// The forward-transform input of the batched shard encoding: the `k`
/// inverse-transformed values of each position followed by zeros up to
/// `n`, position after position.
pub fn pad_shards(intt_out: &Vec<u64>, k: usize, n: usize, shard_elements: usize) -> (r: Vec<u64>)
    requires
        k <= n,
        intt_out.len() == shard_elements * k,
        shard_elements * n <= usize::MAX,
    ensures
        r.len() == shard_elements * n,
        forall|pos: int, j: int|
            0 <= pos < shard_elements && 0 <= j < n ==> #[trigger] r[pos * n + j] == (if j < k {
                intt_out[pos * k + j]
            } else {
                0
            }),
{
    let mut r: Vec<u64> = Vec::new();
    let mut pos: usize = 0;
    proof {
        lemma_mul_basics(n as int);
    }
    while pos < shard_elements
        invariant
            pos <= shard_elements,
            k <= n,
            intt_out.len() == shard_elements * k,
            shard_elements * n <= usize::MAX,
            r.len() == pos * n,
            forall|pp: int, j: int|
                0 <= pp < pos && 0 <= j < n ==> #[trigger] r[pp * n + j] == (if j < k {
                    intt_out[pp * k + j]
                } else {
                    0
                }),
        decreases shard_elements - pos,
    {
        let mut j: usize = 0;
        proof {
            lemma_mul_inequality(pos as int + 1, shard_elements as int, n as int);
            lemma_mul_is_distributive_add_other_way(n as int, pos as int, 1);
            lemma_mul_is_commutative(shard_elements as int, n as int);
            lemma_mul_inequality(pos as int + 1, shard_elements as int, k as int);
            lemma_mul_is_distributive_add_other_way(k as int, pos as int, 1);
            lemma_mul_is_commutative(shard_elements as int, k as int);
        }
        while j < n
            invariant
                pos < shard_elements,
                j <= n,
                k <= n,
                intt_out.len() == shard_elements * k,
                shard_elements * n <= usize::MAX,
                (pos + 1) * n <= shard_elements * n,
                (pos + 1) * n == pos * n + n,
                (pos + 1) * k <= shard_elements * k,
                (pos + 1) * k == pos * k + k,
                r.len() == pos * n + j,
                forall|pp: int, jj: int|
                    0 <= pp < pos && 0 <= jj < n ==> #[trigger] r[pp * n + jj] == (if jj < k {
                        intt_out[pp * k + jj]
                    } else {
                        0
                    }),
                forall|jj: int| 0 <= jj < j ==> #[trigger] r[pos * n + jj] == (if jj < k {
                    intt_out[pos * k + jj]
                } else {
                    0
                }),
            decreases n - j,
        {
            let v = if j < k {
                intt_out[pos * k + j]
            } else {
                0
            };
            let ghost before = r@;
            r.push(v);
            proof {
                assert forall|pp: int, jj: int| 0 <= pp < pos && 0 <= jj < n implies #[trigger] r[pp * n + jj] == (
                if jj < k {
                    intt_out[pp * k + jj]
                } else {
                    0
                }) by {
                    lemma_block_entry(pp, n as int, jj, pos as int);
                    assert(r@[pp * n + jj] == before[pp * n + jj]);
                }
                assert forall|jj: int| 0 <= jj < j + 1 implies #[trigger] r[pos * n + jj] == (if jj < k {
                    intt_out[pos * k + jj]
                } else {
                    0
                }) by {
                    if jj < j {
                        assert(r@[pos * n + jj] == before[pos * n + jj]);
                    }
                }
            }
            j += 1;
        }
        pos += 1;
    }
    r
}


} // verus!
