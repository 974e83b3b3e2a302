[package]
name = "rlnc_poc"
version = "0.1.0"
edition = "2021"
publish = false

[dependencies]
curve25519-dalek = { version = "4", features = ["serde"] }
rand = "0.8"
sha2 = "0.10"
bincode = "1"
serde = { version = "1", features = ["derive"] }
