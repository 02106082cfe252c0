[package]
name = "kime"
version = "0.1.0"
edition = "2021"
publish = false

[dependencies]
blake3 = "1"
cudarc = { version = "*", default-features = false, features = ["std", "driver", "nvrtc", "cublaslt", "dynamic-loading", "cuda-12080"] }
libloading = "0.8"
regex = "1"
serde = { version = "1", features = ["derive"] }
serde_json = { version = "1", features = ["preserve_order"] }
sha2 = "0.10"
toml = "0.9"
