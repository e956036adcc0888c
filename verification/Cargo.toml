[package]
name = "geofast"
version = "0.1.0"
edition = "2021"
publish = false

[dependencies]
geo = "*"
geographiclib-rs = "*"
pyo3 = { version = "*", features = ["extension-module", "abi3-py38"] }
