[package]
name = "invariant_kernel"
version = "0.1.0"
edition = "2021"
publish = false

[dependencies]
sha2 = "0.10"
hex = "0.4"
hnsw_rs = "0.1"
rayon = "1"
pyo3 = { version = "0.20", features = ["extension-module", "abi3-py38"] }
