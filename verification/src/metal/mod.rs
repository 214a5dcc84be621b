//! Host-side helpers of the GPU FFT: bit reversal, twiddle tables, modular
//! powers and inverses, and the reference inverse transform that checks
//! the GPU output.

pub mod metal;
pub mod metal_long;
pub mod dispatch;
