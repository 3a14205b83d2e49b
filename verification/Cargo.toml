[package]
name = "rhei_server"
version = "0.1.0"
edition = "2021"
publish = false

[dependencies]
anyhow = "1"
axum = "0.6"
dotenvy = "0.15"
serde = { version = "1", features = ["derive"] }
tokio = { version = "1", features = ["fs", "macros", "net", "rt-multi-thread"] }
tower-http = { version = "0.4", features = ["cors", "fs"] }
tracing = "0.1"
tracing-subscriber = "0.3"
