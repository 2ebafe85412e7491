[package]
name = "tailsvc"
version = "0.1.0"
edition = "2021"
publish = false

[dependencies]
idna = "1"
url = "2"
chrono = "0.4"
sha2 = "0.10"
rand = "0.8"
anyhow = "1"
arc-swap = "1"
axum = "0.8"
bollard = "0.18"
figment = { version = "0.10", features = ["toml", "env"] }
futures = "0.3"
hickory-proto = "0.25"
hickory-resolver = "0.25"
http-body-util = "0.1"
hyper = { version = "1", features = ["http1", "server", "client"] }
hyper-util = { version = "0.1", features = ["client-legacy", "http1", "tokio"] }
reqwest = { version = "0.12", default-features = false, features = ["json"] }
serde = { version = "1", features = ["derive"] }
serde_json = "1"
sqlx = { version = "0.8", default-features = false, features = ["runtime-tokio", "sqlite", "migrate"] }
thiserror = "2"
tokio = { version = "1", features = ["full"] }
tower-http = { version = "0.6", features = ["catch-panic", "trace"] }
tracing = "0.1"
tracing-subscriber = { version = "0.3", features = ["env-filter"] }
hostname = "0.4"
