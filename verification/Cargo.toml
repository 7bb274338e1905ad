[package]
name = "eventflow"
version = "0.1.0"
edition = "2021"
publish = false

[dependencies]
serde_json = "1"
pyo3 = { version = "0.23", features = ["extension-module"] }
numpy = "0.23"
once_cell = "1"
