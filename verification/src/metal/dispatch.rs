//! Launch sizes of the GPU transform kernels, and the order of the passes of
//! a batched forward-then-inverse transform.

use vstd::prelude::*;
use vstd::arithmetic::div_mod::*;
use vstd::arithmetic::mul::*;
use vstd::arithmetic::power2::{lemma_pow2_pos, lemma_pow2_unfold, pow2};
use vstd::bits::{lemma_u64_pow2_no_overflow, lemma_u64_shl_is_mul, lemma_u64_shr_is_div};
use crate::ntt::bitrev::{trailing_zeros, trailing_zeros_spec};

verus! {

/// Which twiddle table a transform pass reads.
#[derive(Debug, Clone, Copy, PartialEq, Eq, Structural)]
pub enum Twiddles {
    Forward,
    Inverse,
}

/// One pass of the batched transform with its launch size.
#[derive(Debug, Clone, Copy, PartialEq, Eq, Structural)]
pub enum Pass {
    /// The shared-memory transform: `groups` threadgroups of `width` threads.
    SharedFft { twiddles: Twiddles, groups: usize, width: usize },
    /// The bit-reversal permutation: `threads` threads in groups of `width`.
    Bitrev { threads: usize, width: usize },
}

/// The smaller of `a` and `b`.
pub open spec fn min_of(a: int, b: int) -> int {
    if a <= b {
        a
    } else {
        b
    }
}

/// The launch of the shared-memory transform of `batch_size` transforms of
/// size `n >= 1`: threadgroups of `min(256, n)` threads, as many per
/// transform as it takes to cover `n`. Returns `(groups, width)`.
pub fn shared_fft_launch(n: usize, batch_size: usize) -> (r: (usize, usize))
    requires
        n >= 1,
        n + 256 <= usize::MAX,
        ((n + min_of(256, n as int) - 1) / min_of(256, n as int)) * batch_size <= usize::MAX,
    ensures
        r.1 == min_of(256, n as int),
        r.0 == ((n + r.1 - 1) / (r.1 as int)) * batch_size,
{
    let max_block_size = if 256 <= n {
        256
    } else {
        n
    };
    let num_blocks_per_fft = (n + max_block_size - 1) / max_block_size;
    let total_blocks = num_blocks_per_fft * batch_size;
    (total_blocks, max_block_size)
}

/// The launch of the bit-reversal permutation of `batch_size` transforms of
/// size `n`: one thread per element, in groups of 128. Returns
/// `(threads, width)`.
pub fn bitrev_launch(n: usize, batch_size: usize) -> (r: (usize, usize))
    requires
        n * batch_size <= usize::MAX,
    ensures
        r.0 == n * batch_size,
        r.1 == 128,
{
    (n * batch_size, 128)
}

/// The launch of butterfly stage `stage` of `batch_size` transforms of size
/// `n`: `n / 2^(stage+1)` groups of `2^stage` butterflies each per transform,
/// one thread per butterfly, in groups of at most 64. Returns
/// `(threads, width)`.
pub fn butterfly_launch(n: usize, batch_size: usize, stage: u32) -> (r: (usize, usize))
    requires
        stage < 63,
        (n as int / (pow2((stage + 1) as nat) as int)) * pow2(stage as nat) * batch_size <= usize::MAX,
    ensures
        r.0 == (n as int / (pow2((stage + 1) as nat) as int)) * pow2(stage as nat) * batch_size,
        r.1 == min_of(64, r.0 as int),
{
    let s = stage as u64;
    let n64 = n as u64;
    proof {
        lemma_u64_pow2_no_overflow(s as nat);
        lemma_u64_shl_is_mul(1, s);
        lemma_u64_shr_is_div(n64, (s + 1) as u64);
        lemma_pow2_unfold((s + 1) as nat);
        lemma_pow2_pos(s as nat);
    }
    let step = 1u64 << s;
    let num_groups = n64 >> (s + 1);
    proof {
        let d = pow2((s + 1) as nat) as int;
        lemma_fundamental_div_mod(n as int, d);
        lemma_mod_bound(n as int, d);
        assert(num_groups * step <= n) by (nonlinear_arith)
            requires
                n == d * (num_groups as int) + (n as int) % d,
                (n as int) % d >= 0,
                d == 2 * step,
                step >= 1,
        ;
    }
    let threads_per_fft = num_groups * step;
    proof {
        if batch_size >= 1 {
            lemma_mul_inequality(1, batch_size as int, threads_per_fft as int);
        }
    }
    let total = threads_per_fft * (batch_size as u64);
    let total_threads = total as usize;
    let width = if 64 <= total_threads {
        64
    } else {
        total_threads
    };
    (total_threads, width)
}

/// The trailing-zero count of `n` taken as a `u32`: 32 when that is 0.
pub open spec fn log_size(n: nat) -> nat {
    if n % 0x1_0000_0000 == 0 {
        32
    } else {
        trailing_zeros_spec(n % 0x1_0000_0000)
    }
}

/// The trailing-zero count of `n` taken as a `u32`: 32 when that is 0.
pub fn transform_log_size(n: usize) -> (r: u32)
    ensures
        r == log_size(n as nat),
        r <= 32,
{
    let low = ((n as u64) % 0x1_0000_0000) as usize;
    if low == 0 {
        32
    } else {
        let k = trailing_zeros(low);
        proof {
            vstd::arithmetic::power2::lemma2_to64();
            if k > 32 {
                vstd::arithmetic::power2::lemma_pow2_strictly_increases(32, k as nat);
            }
        }
        k as u32
    }
}

/// The passes of a batched forward-then-inverse transform of `batch_size`
/// transforms of size `n >= 1`: the shared-memory transform with the forward
/// twiddles, the bit reversal, the shared-memory transform with the inverse
/// twiddles, and the bit reversal again.
pub fn batched_fft_passes(n: usize, batch_size: usize) -> (passes: Vec<Pass>)
    requires
        n >= 1,
        n + 256 <= usize::MAX,
        ((n + min_of(256, n as int) - 1) / min_of(256, n as int)) * batch_size <= usize::MAX,
        n * batch_size <= usize::MAX,
    ensures
        passes.len() == 4,
        ({
            let w = min_of(256, n as int);
            let g = ((n + w - 1) / w) * batch_size;
            &&& passes[0] == (Pass::SharedFft { twiddles: Twiddles::Forward, groups: g as usize, width: w as usize })
            &&& passes[1] == (Pass::Bitrev { threads: (n * batch_size) as usize, width: 128 })
            &&& passes[2] == (Pass::SharedFft { twiddles: Twiddles::Inverse, groups: g as usize, width: w as usize })
            &&& passes[3] == (Pass::Bitrev { threads: (n * batch_size) as usize, width: 128 })
        }),
{
    let (groups, width) = shared_fft_launch(n, batch_size);
    let (threads, bitrev_width) = bitrev_launch(n, batch_size);
    let mut passes: Vec<Pass> = Vec::new();
    passes.push(Pass::SharedFft { twiddles: Twiddles::Forward, groups, width });
    passes.push(Pass::Bitrev { threads, width: bitrev_width });
    passes.push(Pass::SharedFft { twiddles: Twiddles::Inverse, groups, width });
    passes.push(Pass::Bitrev { threads, width: bitrev_width });
    passes
}

} // verus!
