[package]
name = "dchacha20"
version = "0.1.0"
edition = "2021"
publish = false

[dependencies]
zeroize = "1"

[dev-dependencies]
rand = "0.8"
