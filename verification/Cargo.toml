[package]
name = "vpn_switcher"
version = "0.1.0"
edition = "2021"
publish = false

[dependencies]
anyhow = "*"
axum = "*"
serde = { version = "*", features = ["derive"] }
serde_json = "*"
tokio = { version = "*", features = ["rt-multi-thread", "macros", "signal", "fs", "process", "sync", "net", "io-util"] }
tracing = "*"
tracing-subscriber = { version = "*", features = ["env-filter"] }
