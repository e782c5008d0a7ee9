[package]
name = "merkle_membership"
version = "0.1.0"
edition = "2021"
publish = false

[dependencies]
ark-crypto-primitives = { version = "0.3", features = ["r1cs"] }
ark-ed-on-bls12-381 = { version = "0.3", features = ["r1cs"] }
ark-r1cs-std = "0.3"
ark-relations = "0.3"
ark-ec = "0.3"
ark-ff = "0.3"
ark-std = "0.3"

[dev-dependencies]
rust-crypto = "0.2"
tracing = "0.1"
tracing-subscriber = "0.2"
