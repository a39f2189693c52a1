[package]
name = "sparse_merge"
version = "0.1.0"
edition = "2021"
publish = false

[dependencies]
fxhash = "0.2"
serde = { version = "1", features = ["derive"] }
pyo3 = "*"
