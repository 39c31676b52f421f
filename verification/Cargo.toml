[package]
name = "skrub_rust"
version = "0.1.0"
edition = "2021"
publish = false

[dependencies]
ahash = "0.8"
rand = { version = "0.9", default-features = false, features = ["std", "std_rng"] }
rayon = "1"
once_cell = "1"
ndarray = "0.16"
ndarray-linalg = { version = "0.17", default-features = false }
numpy = "0.26"
pyo3 = { version = "0.26", features = ["abi3-py39", "extension-module"] }
