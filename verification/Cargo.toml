[package]
name = "tig_circuit_tools"
version = "0.1.0"
edition = "2021"
publish = false

[dependencies]
curve25519-dalek = "4"
regex = "1"
serde = { version = "1", features = ["derive"] }
serde_json = "1"
rand = "0.8"
rand_chacha = "0.3"
sha2 = "0.10"
clap = { version = "4", features = ["derive"] }
indicatif = "0.17"
