[package]
name = "cargo-run-copy"
version = "0.1.0"
edition = "2021"
publish = false

[dependencies]
anyhow = "1"
blake3 = { version = "1", features = ["pure"] }
cargo_metadata = "*"
clap = { version = "4", features = ["derive"] }
