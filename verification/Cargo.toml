[package]
name = "crawlee-storage"
version = "0.1.0"
edition = "2021"
publish = false

[dependencies]
base64 = "0.22"
chrono = { version = "0.4", features = ["serde"] }
napi = { version = "3", features = ["async", "chrono_date", "napi6", "serde-json", "tokio_rt"] }
napi-derive = "3"
percent-encoding = "2"
pyo3 = { version = "*", features = ["abi3-py310", "chrono", "extension-module"] }
pyo3-async-runtimes = { version = "*", features = ["tokio-runtime"] }
pyo3-stub-gen = "*"
rand = "0.9"
serde = { version = "1", features = ["derive"] }
serde_json = "1"
sha2 = "0.10"
thiserror = "2"
tokio = { version = "1", features = ["fs", "rt", "sync"] }
tracing = "0.1"
