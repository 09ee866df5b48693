[package]
name = "othlib"
version = "0.1.0"
edition = "2021"
publish = false

[dependencies]
unic-char-range = "*"
