[package]
name = "lambda_microegg"
version = "0.1.0"
edition = "2021"
publish = false

[dependencies]
indexmap = "2"
rustc-hash = "2"
web-time = "1"
