[package]
name = "shuttle"
version = "0.1.0"
edition = "2021"
publish = false

[dependencies]
fuzzy-matcher = "*"
ureq = "*"
serde = { version = "*", features = ["derive"] }
serde_json = "*"
