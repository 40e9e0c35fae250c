[package]
name = "marked_yaml"
version = "0.1.0"
edition = "2021"
publish = false

[dependencies]
yaml-rust = "=0.4.5"
serde = { version = "=1.0.229", features = ["derive"] }
serde_json = "=1.0.151"
schemars = "=1.2.2"
http = "=1.5.0"
url = { version = "=2.5.8", features = ["serde"] }
jsonschema = { version = "=0.58.6", default-features = false }
