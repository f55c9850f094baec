[package]
name = "zbus"
version = "0.1.0"
edition = "2021"
publish = false

[dependencies]
async-io = "*"
nix = { version = "*", features = ["user"] }
serde = { version = "*", features = ["derive"] }
