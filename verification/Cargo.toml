[package]
name = "image_base64"
version = "0.1.0"
edition = "2021"
publish = false

[dependencies]
base64 = "0.13"
regex = "1"
rustc-serialize = "0.3"
