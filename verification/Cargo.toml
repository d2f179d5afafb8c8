[package]
name = "b3hash"
version = "0.1.0"
edition = "2021"
publish = false

[dependencies]
blake3 = { version = "*", features = ["mmap"] }
camino = "*"
rayon = "*"
