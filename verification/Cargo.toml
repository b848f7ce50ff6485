[package]
name = "hypervector"
version = "0.1.0"
edition = "2021"
publish = false

[dependencies]
mersenne_twister_rs = "*"
rand = "*"
rand_core = "*"
rand_distr = "*"
rustfft = "*"
clap = { version = "*", features = ["derive"] }
glob = "*"
