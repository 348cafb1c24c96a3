[package]
name = "rustuna"
version = "0.1.0"
edition = "2021"
publish = false

[dependencies]
rand = "0.8"
rand_distr = "0.4"
pyo3 = { version = "*", default-features = false, features = ["macros"] }
