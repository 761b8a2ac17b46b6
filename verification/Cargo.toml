[package]
name = "buffer_pool"
version = "0.1.0"
edition = "2021"
publish = false

[dependencies]
cudarc = { version = "0.13", default-features = false, features = ["std", "driver", "cuda-12050"] }
