[package]
name = "memcomparable"
version = "0.1.0"
edition = "2021"
publish = false

[dependencies]
bytes = "1"
serde = "1"
rust_decimal = "1"

[dev-dependencies]
rand = "0.8"
