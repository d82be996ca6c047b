[package]
name = "clvmr"
version = "0.1.0"
edition = "2021"
publish = false

[dependencies]
sha2 = "0.10"
pyo3 = { version = "0.20", features = ["extension-module", "abi3-py311"] }
