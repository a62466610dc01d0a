[package]
name = "six_degrees"
version = "0.1.0"
edition = "2021"
publish = false

[dependencies]
rand = "0.8"
flate2 = "1"
serde = { version = "1", features = ["derive"] }
serde_json = "1"
