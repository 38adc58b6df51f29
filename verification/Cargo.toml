[package]
name = "bec"
version = "0.1.0"
edition = "2021"
publish = false

[dependencies]
anyhow = "1"
ed25519-dalek = "1"
rand = "0.7"
sha2 = "0.9"
thiserror = "1"
