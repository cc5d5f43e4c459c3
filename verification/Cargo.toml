[package]
name = "tokcount"
version = "0.1.0"
edition = "2021"
publish = false

[dependencies]
pcre2 = "*"
base64 = "*"
rust_decimal = "*"
