[package]
name = "vecnorm"
version = "0.1.1"
edition = "2021"
publish = false

[dependencies]
rayon = "1"
ndarray = { version = "0.16", features = ["rayon"] }
thiserror = "1"
pyo3 = { version = "0.23", features = ["abi3-py310"] }
numpy = "0.23"
