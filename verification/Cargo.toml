[package]
name = "geo_rtree"
version = "0.1.0"
edition = "2021"
publish = false

[dependencies]
geo = "=0.31.0"
geo-traits = "=0.3.0"
rayon = "=1.12.0"
pyo3 = { version = "=0.30.1", features = ["abi3-py311"] }
pyo3-arrow = "=0.20.0"
arrow-array = "=59.3.2"
arrow-buffer = "=59.3.2"

[dev-dependencies]
rand = "=0.9.5"
