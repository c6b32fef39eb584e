[package]
name = "mersenne_31"
version = "0.1.0"
edition = "2021"
publish = false

[dependencies]
itertools = "0.13"
num-bigint = { version = "0.4", default-features = false }
rand = "0.8"
serde = { version = "1.0", default-features = false, features = ["derive", "alloc"] }
