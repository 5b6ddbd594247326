[package]
name = "phantom-fhe"
version = "0.1.0"
edition = "2021"
publish = false

[dependencies]
sha2 = "0.10"
rand_chacha = "0.3"
rand_core = "0.6"
thiserror = "2"
