[package]
name = "cpu_storage"
version = "0.1.0"
edition = "2021"
publish = false

[dependencies]
gemm = "0.15"
half = { version = "2.3", features = ["num-traits"] }
num-traits = "0.2"
