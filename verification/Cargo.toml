[package]
name = "skeptic"
version = "0.1.0"
edition = "2021"
publish = false

[dependencies]
cargo_metadata = "0.18"
error-chain = "0.12"
tempfile = "3"
walkdir = "2"

[dev-dependencies]
unindent = "0.2"
