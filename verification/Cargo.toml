[package]
name = "chardiff"
version = "0.1.0"
edition = "2021"
publish = false

[dependencies]
native-tls = "0.2"
serde_json = "1"
