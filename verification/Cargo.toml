[package]
name = "sngram"
version = "0.1.0"
edition = "2021"
publish = false

[dependencies]
crc32fast = "1"
regex-syntax = "0.8"
thiserror = "2"
tokio = { version = "1", features = ["io-util"] }
