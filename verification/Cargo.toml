[package]
name = "distributed_filter"
version = "0.1.0"
edition = "2021"
publish = false

[dependencies]
qfilter = { version = "=0.3.1", features = ["serde"] }
bincode = "=1.3.3"
aws-config = "1"
aws-sdk-s3 = "1"
tokio = { version = "1", features = ["full"] }
bytes = "1"
chrono = "0.4"
axum = "0.8"
nanoid = "*"
dotenv = "*"
prometheus = "*"
lazy_static = "1"
sys-info = "*"
serde = { version = "1", features = ["derive"] }
