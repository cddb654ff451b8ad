[package]
name = "binius64"
version = "0.1.0"
edition = "2021"
publish = false

[dependencies]
rayon = "1"
sha2 = "0.10"
digest = "0.10"
thiserror = "2"
tracing = "0.1"

[dev-dependencies]
blake3 = { version = "1", default-features = false }
rand = { version = "0.9", features = ["std_rng"] }
sha3 = "0.10"
