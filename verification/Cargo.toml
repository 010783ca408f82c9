[package]
name = "misa_wbc"
version = "0.1.0"
edition = "2021"
publish = false

[dependencies]
nalgebra = "=0.33.3"
clarabel = "=0.11.1"
pyo3 = { version = "=0.22.6", features = ["extension-module", "abi3-py38"] }
numpy = "=0.22.1"
