[package]
name = "alice-voice"
version = "0.1.0"
edition = "2021"
publish = false

[dependencies]
serde = { version = "1", features = ["derive"] }
serde-big-array = "0.5"
thiserror = "2"
alice-codec = "0.1.3"
alice-db = "0.5.1"
alice-ml = "0.2.0"
pyo3 = "0.23"
numpy = "0.23"
