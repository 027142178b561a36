[package]
name = "qitesse"
version = "0.1.0"
edition = "2021"
publish = false

[dependencies]
num-complex = "0.4"
rand = "0.8"
rayon = "1"
pyo3 = { version = "0.20", features = ["extension-module"] }
numpy = "0.20"
