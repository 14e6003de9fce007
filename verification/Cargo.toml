[package]
name = "librush"
version = "0.1.0"
edition = "2021"
publish = false

[dependencies]
unicode-segmentation = "*"
unicase = "*"
pyo3 = "*"
