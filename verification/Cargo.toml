[package]
name = "peg_core"
version = "0.1.0"
edition = "2021"
publish = false

[dependencies]
bitcoin = "0.29"
secp256k1 = "0.24"
sha2 = "0.10"
serde_json = "1"
