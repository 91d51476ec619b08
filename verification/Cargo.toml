[package]
name = "calibre"
version = "0.1.0"
edition = "2021"
publish = false

[dependencies]
blake3 = "1"
blst = "0.3"
ed25519-dalek = { version = "2", features = ["batch"] }
