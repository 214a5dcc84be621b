//! A ZODA-style data square over the BabyBear field: cells addressed by
//! column and row, column extension by the number-theoretic transform, a
//! SHA-256 commitment to the extended square, and the random-linear-
//! combination check that ties rows to the encoded combination.

pub mod babybear;

pub mod grid;
