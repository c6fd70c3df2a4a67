[package]
name = "matching_engine"
version = "0.1.0"
edition = "2021"
publish = false

[dependencies]
rocket = "=0.5.2"
serde = { version = "=1.0.229", features = ["derive"] }
serde_json = "=1.0.154"
