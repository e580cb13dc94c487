[package]
name = "decimal"
version = "0.1.0"
edition = "2021"
publish = false

[dependencies]
num = "0.4"
serde = "1.0"

[dev-dependencies]
bincode = "1.3"
serde_json = "1.0"
