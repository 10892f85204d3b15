[package]
name = "hadamard_sss"
version = "0.1.0"
edition = "2021"
publish = false

[dependencies]
ndarray = "0.15"
rand = "0.8"
zeroize = { version = "1", features = ["derive"] }
