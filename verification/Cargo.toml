[package]
name = "tutti"
version = "0.1.0"
edition = "2021"
publish = false

[dependencies]
blake3 = "1"
curve25519-dalek = "4"
ed25519-dalek = "2"
futures = "0.3"
serde = { version = "1", features = ["derive"] }
serde_json = "1"
subtle = "2"
thiserror = "2"
zeroize = "1"
