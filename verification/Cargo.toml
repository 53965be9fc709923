[package]
name = "jpst"
version = "0.1.0"
edition = "2021"
publish = false

[dependencies]
jsonpath-plus = "*"
serde = "1"
serde_json = "1"
