//! Number theory used by the contracts: primality, modular powers, finite
//! sums, binomial coefficients and Fermat's little theorem, elements of full
//! order, and little-endian digits.

pub mod primes;
pub mod powmod;
pub mod sums;
pub mod cyclic;
pub mod binomial;
pub mod digits;
