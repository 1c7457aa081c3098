[package]
name = "sumcheck"
version = "0.1.0"
edition = "2021"
publish = false

[dependencies]
ark-ff = "0.5"
ark-serialize = { version = "0.5", features = ["derive"] }
ark-bn254 = { version = "0.5", default-features = false, features = ["scalar_field"] }
ark-std = "0.5"
blake2 = "0.10"
digest = "0.10"
rand_core = "0.6"
