[package]
name = "egraphsgood"
version = "0.1.0"
edition = "2021"
publish = false

[dependencies]
egg = "=0.11.0"
pyo3 = "=0.20.3"
