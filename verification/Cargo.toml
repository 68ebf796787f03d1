[package]
name = "m6algs"
version = "0.1.0"
edition = "2021"
publish = false

[dependencies]
bit-vec = "=0.6.3"
rand = "=0.8.8"
