[package]
name = "kyber"
version = "0.1.0"
edition = "2021"
publish = false

[dependencies]
sha3 = "0.10"
subtle = "2"
zeroize = "1"
rand = "0.8"
