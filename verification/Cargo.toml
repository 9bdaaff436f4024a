[package]
name = "infralens"
version = "0.1.0"
edition = "2021"
publish = false

[dependencies]
anyhow = "=1.0.104"
arrow = { version = "=55.2.0", default-features = false, features = ["ipc"] }
arrow-arith = "=55.2.0"
arrow-ord = "=55.2.0"
axum = "=0.7.9"
bincode = "=1.3.3"
chrono = "=0.4.45"
config = { version = "=0.14.1", default-features = false, features = ["toml"] }
crc32fast = "=1.5.4"
dashmap = "=6.2.1"
etcd-client = "=0.14.1"
futures = "=0.3.34"
k8s-openapi = { version = "=0.22.0", features = ["v1_30"] }
kube = { version = "=0.92.1", default-features = false, features = ["client", "runtime", "derive", "rustls-tls"] }
metrics = "=0.24.6"
metrics-exporter-prometheus = { version = "=0.16.2", default-features = false, features = ["http-listener"] }
parking_lot = "=0.12.5"
parquet = { version = "=55.2.0", default-features = false, features = ["arrow", "zstd"] }
prost = "=0.13.5"
schemars = "=0.8.22"
serde = { version = "=1.0.229", features = ["derive"] }
serde_json = { version = "=1.0.154", features = ["preserve_order"] }
thiserror = "=1.0.69"
tokio = { version = "=1.54.1", features = ["full"] }
tokio-stream = "=0.1.19"
tonic = "=0.12.3"
tower-http = { version = "=0.6.11", features = ["trace"] }
tracing = "=0.1.44"
tracing-subscriber = { version = "=0.3.23", features = ["env-filter", "json"] }

[dev-dependencies]
tempfile = "=3.27.0"
