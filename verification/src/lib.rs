//! BabyBear field arithmetic, number-theoretic transforms and a ZODA-style
//! data-square encoder, with their contracts proved by Verus.

pub mod babybear;
pub mod bignum;
pub mod benchmark_utils;
pub mod ff;
pub mod field;
pub mod hashing;
pub mod math;
pub mod metal;
pub mod polynomial;
pub mod ntt;
pub mod ntt_babybear;
pub mod zoda;
