[package]
name = "word_bounds"
version = "0.1.0"
edition = "2021"
publish = false

[dependencies]
regex = "*"
fancy-regex = "*"
