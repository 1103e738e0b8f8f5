[package]
name = "segment"
version = "0.1.0"
edition = "2021"
publish = false

[dependencies]
blas-src = "*"
ndarray = "0.15"
rand = "0.8"
