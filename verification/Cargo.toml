[package]
name = "dtxt"
version = "0.1.0"
edition = "2021"
publish = false

[dependencies]
memchr = "*"
ryu = "*"
serde = { version = "*", features = ["derive"] }
serde_json = { version = "*", features = ["float_roundtrip"] }
rand = "*"
