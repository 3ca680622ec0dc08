[package]
name = "recall"
version = "0.1.0"
edition = "2021"
publish = false

[dependencies]
zstd = "*"
sha2 = "*"
glob = "*"
