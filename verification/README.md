# zoda_rs

Finite-field arithmetic, number-theoretic transforms (NTT/FFT) and a
ZODA-style Reed-Solomon data-square encoder, written in Verus: each function of
the library carries a `requires`/`ensures` contract and Verus proves it.

## Layout

- `src/` — the verified library.
  - `babybear.rs`, `field/babybear.rs` — BabyBear field elements (`u64` and
    `u32` representations), with inversion, powers and two-adic roots of unity.
  - `ntt/` — the transforms over `u32` residues (`cpu`), their mathematical
    model (`transform`, `dft`, `bitrev`), the BabyBear roots of unity, the
    transforms over residues of any size (`residues`) and the host-side
    launch plan of the CUDA transform (`cuda`).
  - `ntt_babybear.rs` — the in-place transform over `u64` BabyBear elements.
  - `bignum.rs`, `ff.rs`, `polynomial.rs` — natural numbers of any size
    (arithmetic computed by `num-bigint`), residues modulo them, and
    polynomials with Lagrange interpolation.
  - `zoda/` — the data square, its column extension, its SHA-256 commitment
    and the random-linear-combination check.
  - `benchmark_utils.rs` — encoding parameters, the vertical encoding and the
    two-phase validation of an encoding.
  - `metal/` — host-side computations of the Metal transform kernels:
    twiddle tables, Montgomery parameters, limb conversions and the order
    and sizes of the kernel launches.
  - `hashing.rs` — SHA-256 (computed by `sha2`) and hexadecimal rendering.
  - `math/` — the number theory the proofs use: primes, modular powers,
    finite sums, binomial coefficients and Fermat's little theorem.
- `tests/` — tests of the library on concrete values.
- `app/` — code around the library that Verus does not check: CUDA and Metal
  bindings and runners, random sampling, timing and printing of benchmarks.

The Metal runners in `app/` build only on Apple targets.
