[package]
name = "srp"
version = "0.1.0"
edition = "2021"
publish = false

[dependencies]
num-bigint = "0.4"
rand = "0.8"
sha2 = "0.10"
hmac = "0.12"
