[package]
name = "remake"
version = "0.1.0"
edition = "2021"
publish = false

[dependencies]
clap = "*"
nix = { version = "*", features = ["process"] }
serde = { version = "*", features = ["derive"] }
serde_json = "*"
