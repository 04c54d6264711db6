[package]
name = "rxeval"
version = "0.1.0"
edition = "2021"
publish = false

[dependencies]
regex = "1"
pyo3 = { version = "*", features = ["extension-module"] }
extendr-api = "*"

[dev-dependencies]
rxform = "*"
