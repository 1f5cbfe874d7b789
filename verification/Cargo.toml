[package]
name = "mbc_mom"
version = "0.1.0"
edition = "2021"
publish = false

[dependencies]
num-complex = "=0.4.6"
rayon = "=1.12.0"
pyo3 = { version = "=0.30.1", features = ["num-complex"] }
