[package]
name = "binary_hamming_dist"
version = "0.1.0"
edition = "2021"
publish = false

[dependencies]
bitvec = "0.17"
clap = "2"
indicatif = "0.15"
num = "0.2"
num-traits = "0.2"
rayon = "1"
