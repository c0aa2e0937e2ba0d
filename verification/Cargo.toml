[package]
name = "election2016"
version = "0.1.0"
edition = "2021"
publish = false

[dependencies]
csv = "0.15"
rustc-serialize = "0.3"
