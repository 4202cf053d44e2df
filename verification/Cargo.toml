[package]
name = "abbreviation_detection"
version = "0.1.0"
edition = "2021"
publish = false

[dependencies]
regex = "1"
csv = "1"
itertools = "0.12"
pyo3 = "0.20"
