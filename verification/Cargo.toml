[package]
name = "e521"
version = "0.1.0"
edition = "2021"

[dependencies]
num-bigint-dig = { version = "0.8", features = ["rand"] }
rand = "0.8"
sha3 = "0.10"
