[package]
name = "josefine_raft"
version = "0.1.0"
edition = "2021"
publish = false

[dependencies]
bytes = "=1.12.1"
clap = "=2.34.0"
futures = "=0.3.34"
kafka-protocol = { version = "=0.18.0", features = ["messages_enums"] }
rand = "=0.8.8"
serde = { version = "=1.0.229", features = ["derive"] }
serde_json = "=1.0.154"
slog = "=2.8.2"
tokio = { version = "=1.54.1", features = ["full"] }
toml = "=1.1.8"
