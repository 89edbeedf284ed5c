[package]
name = "curve_boolean"
version = "0.1.0"
edition = "2021"
publish = false

[dependencies]
itertools = "*"
