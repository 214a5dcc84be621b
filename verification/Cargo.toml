[package]
name = "zoda_rs"
version = "0.1.0"
edition = "2021"
publish = false

[dependencies]
num-bigint = "0.4"
num-integer = "0.1"
num-traits = "0.2"
rand = "0.9"
sha2 = "0.10"
metal = "0.29"
