[package]
name = "at3rs"
version = "0.1.0"
edition = "2021"
publish = false

[dependencies]
rustfft = "6"
lazy_static = "1"
