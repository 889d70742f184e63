[package]
name = "assistant2"
version = "0.1.0"
edition = "2021"
publish = false

[dependencies]
schemars = { version = "=0.8.22", features = ["derive"] }
serde = { version = "=1.0.229", features = ["derive", "rc"] }
