[package]
name = "vlen"
version = "0.1.0"
edition = "2021"

[dependencies]
base64 = "0.13"
serde = "1"

[dev-dependencies]
arbtest = "0.3"
