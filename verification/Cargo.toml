[package]
name = "sng_dbscan"
version = "0.1.0"
edition = "2021"
publish = false

[dependencies]
rand = "0.9"
ndarray-linalg = "*"
numpy = "*"
pyo3 = { version = "*", features = ["extension-module"] }
