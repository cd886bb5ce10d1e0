[package]
name = "flint_core"
version = "0.1.0"
edition = "2021"
publish = false

[dependencies]
anyhow = "1"
base64 = "0.22"
flate2 = "1"
rayon = "1"
rustc-hash = "2"
semver = "1"
serde = { version = "1", features = ["derive"] }
serde_json = "1"
