[package]
name = "ipcalc"
version = "0.1.0"
edition = "2021"
publish = false

[dependencies]
axum = "0.8"
clap = { version = "4", features = ["derive"] }
crossterm = "0.28"
csv = "1"
ipnet = "2"
ratatui = "0.29"
serde = { version = "1", features = ["derive"] }
serde_json = "1"
serde-saphyr = "*"
thiserror = "2"
tokio = { version = "1", features = ["rt-multi-thread", "macros", "net"] }
tower-http = { version = "0.6", features = ["cors", "limit", "set-header", "timeout", "trace"] }
tracing = "0.1"
tracing-appender = "0.2"
tracing-subscriber = { version = "0.3", features = ["env-filter", "json"] }
