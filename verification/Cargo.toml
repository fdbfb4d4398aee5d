[package]
name = "cargo-propagate-features"
version = "0.1.0"
edition = "2021"
publish = false

[dependencies]
anyhow = "1"
cargo-plugin-utils = "*"
clap = { version = "4", features = ["derive"] }
toml_edit = "*"
