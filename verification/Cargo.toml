[package]
name = "lattice"
version = "0.1.0"
edition = "2021"
publish = false

[dependencies]
bytes = "1"
futures = "0.3"
memmap2 = "0.9"
protobuf = "2"
raft = { version = "0.7", default-features = false, features = ["protobuf-codec"] }
serde = { version = "1", features = ["derive"] }
slog = "2"
thiserror = "1"
tokio = { version = "1", features = ["io-util", "macros", "net", "rt-multi-thread", "sync", "time"] }
tokio-util = { version = "0.7", features = ["codec"] }
toml = "0.8"
tracing = "0.1"
