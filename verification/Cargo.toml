[package]
name = "smallperm"
version = "0.1.0"
edition = "2021"
publish = false

[dependencies]
rustc_data_structures = "*"
rustc-hash = "*"
pyo3 = "*"
