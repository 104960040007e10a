[package]
name = "blaze"
version = "0.1.0"
edition = "2021"
publish = false

[dependencies]
regex = "1"
rust-crypto = "0.2"
rustc-serialize = "0.3"
