[package]
name = "mnemos"
version = "0.1.0"
edition = "2021"
publish = false

[dependencies]
dashmap = "=6.2.1"
uuid = { version = "=1.29.0", features = ["v4"] }
serde = { version = "=1.0.229", features = ["derive"] }
serde_json = "=1.0.154"
thiserror = "=2.0.21"
bincode = "=1.3.3"
converge-pack = "=3.8.1"
async-trait = "=0.1.92"
tracing = "=0.1.44"
parking_lot = "=0.12.5"
