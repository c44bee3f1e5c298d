[package]
name = "slychat"
version = "0.1.0"
edition = "2021"
publish = false

[dependencies]
openssl = "*"
tokio = { version = "*", features = ["full"] }
