[package]
name = "cargo_vet"
version = "0.1.0"
edition = "2021"
publish = false

[dependencies]
cargo_metadata = "=0.14.2"
semver = "=1.0.28"
serde_json = "=1.0.154"
