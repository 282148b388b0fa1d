[package]
name = "steganography"
version = "0.1.0"
edition = "2021"
publish = false

[dependencies]
ring = "*"
image = { version = "*", default-features = false, features = ["png"] }
serde = { version = "*", features = ["derive"] }
serde_yaml = "*"
