[package]
name = "chunk_pipeline"
version = "0.1.0"
edition = "2021"
publish = false

[dependencies]
zarrs = { version = "=0.18.3", default-features = false, features = ["filesystem", "crc32c", "gzip"] }
serde_json = "=1.0.154"
rayon = "=1.12.0"
rayon_iter_concurrent_limit = "=0.3.0"
pyo3 = { version = "=0.22.6", features = ["extension-module"] }
numpy = "=0.22.1"
