[package]
name = "radicle_fetch"
version = "0.1.0"
edition = "2021"
publish = false

[dependencies]
radicle-crypto = "*"
