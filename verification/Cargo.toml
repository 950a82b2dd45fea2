[package]
name = "memfs"
version = "0.1.0"
edition = "2021"

[dependencies]
time = "*"

[dev-dependencies]
rand = "*"
