[package]
name = "antihash"
version = "1.0.0"
edition = "2021"
publish = false

[dependencies]
binary-heap-plus = "*"
clap = "2"
rand = "0.7"
