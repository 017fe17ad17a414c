[package]
name = "soc_core"
version = "0.1.0"
edition = "2021"
publish = false

[dependencies]
axum = "0.7"
bloomfilter = "1"
chrono = { version = "0.4", features = ["serde"] }
clap = { version = "4", features = ["derive"] }
ipnetwork = "0.20"
petgraph = "0.6"
reqwest = { version = "0.12", default-features = false, features = ["json"] }
rusqlite = { version = "0.31", features = ["bundled"] }
serde = { version = "1", features = ["derive"] }
serde_json = "1"
thiserror = "1"
tokio = { version = "1", features = ["full"] }
tower-http = { version = "0.5", features = ["cors"] }
tracing = "0.1"
tracing-subscriber = "0.3"
uuid = { version = "1", features = ["v4", "serde"] }
