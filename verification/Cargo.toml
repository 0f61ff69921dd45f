[package]
name = "parser300b"
version = "0.1.0"
edition = "2021"
publish = false

[dependencies]
colored = "2"
serde = "1"
serde_json = "1"
serde_yaml = "0.9"
