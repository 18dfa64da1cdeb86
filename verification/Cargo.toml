[package]
name = "attesta"
version = "0.1.0"
edition = "2021"
publish = false

[dependencies]
ark-bls12-381 = "0.5"
ark-crypto-primitives = { version = "0.5", features = ["sponge"] }
ark-ec = "0.5"
ark-ff = "0.5"
ark-groth16 = "0.5"
ark-r1cs-std = "0.5"
ark-relations = "0.5"
ark-serialize = "0.5"
ark-snark = "0.5"
ed25519-dalek = "2"
hex = "0.4"
rand = "0.8"
rand_chacha = "0.3"
soroban-sdk = { version = "27", features = ["testutils"] }
