[package]
name = "zstd_encoder"
version = "0.1.0"
edition = "2021"

[dev-dependencies]
zstd = "0.13"
