[package]
name = "kvstore"
version = "0.1.0"
edition = "2021"
publish = false

[dependencies]
fjall = "2"
parking_lot = "0.12"
serde = { version = "1", features = ["derive"] }
serde_json = "1"
slog = "2"
raft = "0.7"
protobuf = "2"
thiserror = "1"
tracing = "0.1"
tracing-subscriber = "0.3"
tokio = { version = "1", features = ["rt-multi-thread", "macros", "time"] }
clap = { version = "4", features = ["derive"] }
toml = "0.8"

[dev-dependencies]
tempfile = "3"
