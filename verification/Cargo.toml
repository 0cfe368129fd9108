[package]
name = "oxitorch"
version = "0.1.0"
edition = "2021"
publish = false

[dependencies]
bytemuck = "=1.25.2"
flate2 = "=1.1.10"
matrixmultiply = "=0.3.11"
pyo3 = { version = "=0.30.1", features = ["abi3-py311"] }
rayon = "=1.12.0"
thiserror = "=2.0.21"
