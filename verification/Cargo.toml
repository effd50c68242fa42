[package]
name = "adas_core"
version = "0.1.0"
edition = "2021"
publish = false

[dependencies]
ort = { version = "=2.0.0-rc.15", default-features = false, features = ["std", "cuda"] }
ndarray = "=0.15.6"
numpy = "=0.21.0"
pyo3 = "=0.21.2"
image = { version = "=0.25.10", default-features = false }
imageproc = { version = "=0.25.1", default-features = false }
