[package]
name = "cargo-dep"
version = "0.1.0"
edition = "2021"
publish = false

[dependencies]
cargo_metadata = "0.5"
clap = "2"
failure = "0.1"
semver = "0.9"
