[package]
name = "eliza"
version = "0.1.0"
edition = "2021"
publish = false

[dependencies]
regex = "*"
rand = "*"
serde = { version = "*", features = ["derive"] }
serde_json = "*"
