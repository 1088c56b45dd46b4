[package]
name = "transformer"
version = "0.1.0"
edition = "2021"
publish = false

[dependencies]
rand = "0.10.1"
rayon = "1.10"
matrixmultiply = "0.3"
arrow-array = "53"
parquet = { version = "53", default-features = false, features = ["arrow", "snap", "zstd"] }
reqwest = { version = "0.12", default-features = false, features = ["blocking", "rustls-tls"] }
