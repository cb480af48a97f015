[package]
name = "gdsl"
version = "0.1.0"
edition = "2021"
publish = false

[dependencies]
min-max-heap = "1.3.0"
