[package]
name = "project_hq"
version = "0.1.0"
edition = "2021"
publish = false

[dependencies]
chrono = "0.4"
unicode-normalization = "0.1"
similar = "2"
serde = { version = "1", features = ["derive"] }
serde_json = "1"
toml = "*"
tempfile = "3"
tokio = { version = "1", features = ["full"] }
tokio-stream = { version = "0.1", features = ["sync"] }
axum = "*"
tower-http = { version = "*", features = ["cors"] }
clap = { version = "4", features = ["derive", "env"] }
notify = "*"

[dev-dependencies]
