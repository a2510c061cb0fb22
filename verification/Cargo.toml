[package]
name = "k2v"
version = "0.1.0"
edition = "2021"
publish = false

[dependencies]
base64 = "0.13"
futures = "0.3"
hyper = "0.14"
serde = { version = "1", features = ["derive"] }
serde_json = "1"
