[package]
name = "cargo_patch"
version = "0.1.0"
edition = "2021"
publish = false

[dependencies]
toml = "=0.4.10"
clap = "=2.34.0"
cargo = "0.60"
