[package]
name = "rustysoup"
version = "0.1.0"
edition = "2021"
publish = false

[dependencies]
regex = "*"
encoding_rs = "*"
pyo3 = "*"
html5ever = "*"
markup5ever = "*"
cssparser = "*"
selectors = "*"
parking_lot = "*"
precomputed-hash = "*"
