[package]
name = "placard"
version = "0.1.0"
edition = "2021"
publish = false

[dependencies]
anyhow = "1"
axum = "0.8"
chrono = { version = "0.4", features = ["serde"] }
chrono-tz = { version = "0.10", features = ["serde"] }
clap = { version = "4", features = ["derive"] }
rosc = "*"
sd-notify = "*"
serde = { version = "1", features = ["derive"] }
serde_json = "1"
thiserror = "2"
tokio = { version = "1", features = ["rt", "net", "io-util", "time", "macros"] }
toml = "*"
tracing = "0.1"
tracing-journald = "*"
tracing-subscriber = { version = "0.3", features = ["env-filter"] }
