[package]
name = "sendit"
version = "0.1.0"
edition = "2021"
publish = false

[dependencies]
sha2 = "*"
hex = "*"

[dev-dependencies]
serde_json = "*"
