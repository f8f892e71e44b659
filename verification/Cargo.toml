[package]
name = "fri"
version = "0.1.0"
edition = "2021"
publish = false

[dependencies]
winter-crypto = "*"
winter-math = "*"
winter-utils = "*"
