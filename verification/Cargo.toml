[package]
name = "json_escape"
version = "0.1.0"
edition = "2021"
publish = false

[dev-dependencies]
serde_json = "*"
