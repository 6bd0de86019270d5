[package]
name = "protolith"
version = "0.1.0"
edition = "2021"
publish = false

[dependencies]
prost = "*"
prost-reflect = "*"
serde = { version = "*", features = ["derive"] }
serde_json = "*"
