[package]
name = "satoxid"
version = "0.1.0"
edition = "2021"
publish = false

[dependencies]
cadical = "0.1"

[dev-dependencies]
num-integer = "0.1"
