[package]
name = "overmatch"
version = "0.1.0"
edition = "2021"
publish = false

[dependencies]
flate2 = "=1.1.10"
serde_json = "=1.0.154"
serde = { version = "=1.0.229", features = ["derive"] }
ron = "=0.12.3"
image = { version = "=0.25.10", default-features = false, features = ["png"] }
