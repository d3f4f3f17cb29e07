[package]
name = "crc32fold"
version = "0.1.0"
edition = "2021"
publish = false

[dependencies]

[dev-dependencies]
crc32fast = "1"
