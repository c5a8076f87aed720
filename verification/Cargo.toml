[package]
name = "a2f_ipsp"
version = "0.1.0"
edition = "2021"
publish = false

[dependencies]
merlin = "=3.0.0"
rand = "=0.8.8"
seal_fhe = "=0.8.1"
serde = { version = "=1.0.229", features = ["derive"] }
sunscreen_bulletproofs = "=0.8.1"
sunscreen_curve25519 = { version = "=0.8.1", features = ["serde"] }
sunscreen_math = "=0.8.1"
