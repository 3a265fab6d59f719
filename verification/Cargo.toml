[package]
name = "gdsl"
version = "0.1.0"
edition = "2021"
publish = false

[dependencies]
ahash = "*"
min-max-heap = "*"
rayon = "*"
fnv = "*"
parking_lot = "*"
