[package]
name = "pq2json"
version = "0.1.0"
edition = "2021"
publish = false

[dependencies]
chrono = "=0.4.45"
csv = "=1.4.0"
num-bigint = "=0.4.8"
ryu = "=1.0.23"
serde_json = "=1.0.151"
clap = "=4.6.7"
parquet = { version = "=59.3.0", default-features = false, features = ["snap", "flate2", "flate2-rust_backend"] }
