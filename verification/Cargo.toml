[package]
name = "bytes_view_map"
version = "0.1.0"
edition = "2021"
publish = false

[dependencies]
arrow = "*"
ahash = "*"
