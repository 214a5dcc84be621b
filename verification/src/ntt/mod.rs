//! Number-theoretic transform over `u32` residues.
//!
//! `cpu` is the reference implementation; `transform` holds its mathematical
//! model (the recursive radix-2 transform and the in-place stages that compute
//! it); `dft` proves that the model evaluates polynomials at the roots of unity
//! and that the inverse transform undoes the forward one.

pub mod transform;
pub mod bitrev;
pub mod cpu;
pub mod babybear_roots;
pub mod dft;
pub mod cuda;
pub mod residues;
