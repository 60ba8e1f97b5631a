[package]
name = "gravity_indexer"
version = "0.1.0"
edition = "2021"
publish = false

[dependencies]
cosmos-sdk-proto-althea = "=0.22.0"
gravity_proto = "=0.12.0"
prost = "=0.13.5"
prost-types = "=0.13.5"
sha256 = "=1.6.0"
rocksdb = "=0.25.0"
chrono = "=0.4.45"
serde = { version = "=1.0.229", features = ["derive"] }
serde_json = "=1.0.151"
deep_space = "=2.33.1"
futures-util = "=0.3.34"
tokio = { version = "=1.53.2", features = ["full"] }
