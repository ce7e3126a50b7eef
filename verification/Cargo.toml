[package]
name = "ratchet"
version = "0.1.0"
edition = "2021"
publish = false

[dependencies]
clap = { version = "*", features = ["derive"] }
regex = "*"
ron = "*"
seahash = "*"
serde = { version = "*", features = ["derive"] }
toml = "*"
walkdir = "*"
