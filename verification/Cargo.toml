[package]
name = "beet-scheduler"
version = "0.1.0"
edition = "2021"
publish = false

[dependencies]
anyhow = "1"
axum = "0.8"
chrono = "0.4"
config = "*"
minijinja = { version = "2", features = ["loader"] }
rand = "*"
rusqlite = "*"
serde = { version = "1", features = ["derive"] }
serde_qs = "*"
subtle = "2"
tokio = { version = "1", features = ["full"] }
tower-http = { version = "0.6", features = ["fs", "trace"] }
tracing = "0.1"
tracing-subscriber = { version = "0.3", features = ["env-filter"] }
