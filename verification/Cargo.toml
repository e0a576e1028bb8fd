[package]
name = "mqtt_typed_client"
version = "0.1.0"
edition = "2021"
publish = false

[dependencies]
lru = "=0.12.5"
thiserror = "=2.0.21"
rumqttc = { version = "=0.24.0", features = ["url"] }
tokio = { version = "=1.54.1", features = ["rt-multi-thread", "macros", "sync", "time"] }
bytes = "=1.12.1"
futures = "=0.3.34"
tracing = "=0.1.44"
serde = { version = "=1.0.229", features = ["derive"] }
serde_json = "=1.0.154"
bincode = "=2.0.1"
rmp-serde = "=1.3.1"
ciborium = "=0.2.2"
postcard = { version = "=1.1.3", features = ["alloc"] }
prost = "=0.13.5"
ron = "=0.8.1"
flexbuffers = "=2.0.0"
