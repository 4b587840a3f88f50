[package]
name = "kivi"
version = "0.1.0"
edition = "2021"
publish = false

[dependencies]
normalized-line-endings = "*"
