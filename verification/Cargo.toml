[package]
name = "veridata"
version = "0.1.0"
edition = "2021"
publish = false

[dependencies]
sha2 = "0.10"
blake3 = "1"
unicode-normalization = "0.1"
chrono = { version = "0.4", default-features = false, features = ["alloc", "std"] }
getrandom = "0.3"
serde_json = "1"
base64 = "0.22"
hex = "0.4"
serde = { version = "1", features = ["derive"] }
serde_yaml = "0.9"
clap = { version = "4", features = ["derive"] }
anyhow = "1"
