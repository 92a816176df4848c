[package]
name = "arroyo_worker"
version = "0.1.0"
edition = "2021"
publish = false

[dependencies]
anyhow = "1"
arrow = { version = "53", default-features = false }
arrow-array = "53"
aws-config = "0.51"
aws-sdk-kinesis = "0.21"
datafusion = { version = "43", default-features = false }
datafusion-proto = { version = "43", default-features = false }
futures = "0.3"
prost = "0.13"
serde = { version = "1", features = ["derive"] }
serde_json = "1"
tokio = { version = "1", features = ["rt", "sync", "time"] }
tracing = "0.1"
uuid = { version = "1", features = ["v4"] }
