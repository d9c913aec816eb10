[package]
name = "prism_ann"
version = "0.1.0"
edition = "2021"
publish = false

[dependencies]
byteorder = "1"
numpy = { version = "*" }
pyo3 = { version = "*", features = ["abi3-py39", "extension-module"] }
rand = "0.8"
rayon = "1"
zeroize = "1"
