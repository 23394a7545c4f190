[package]
name = "metrics-exporter-csv"
version = "0.1.0"
edition = "2021"
publish = false

[dependencies]
anyhow = "1"
chrono = "=0.4.45"
clap = { version = "4", features = ["derive"] }
csv = "=1.4.0"
csv-async = "=1.3.1"
event-listener = "5"
glob = "0.3"
metrics = "=0.24.6"
metrics-util = "=0.20.4"
prometheus-client = { version = "=0.25.2", features = ["prometheus_protobuf", "protobuf-protox"] }
smol = "2"
thiserror = "2"
tokio = { version = "1", features = ["rt"] }
tracing = "0.1"
