[package]
name = "pasta"
version = "0.1.0"
edition = "2021"
publish = false

[dependencies]
aes-gcm = "*"
anyhow = "1"
async-compression = { version = "0.4", features = ["tokio", "gzip"] }
async-walkdir = "*"
axum = "0.8"
base64 = "0.22"
futures-util = "0.3"
rand = "*"
redact = { version = "*", features = ["serde"] }
ring = "0.17"
serde = { version = "1", features = ["derive"] }
serde_json = "1"
sha2 = "*"
sqlx = { version = "0.8", default-features = false, features = ["sqlite", "runtime-tokio", "time"] }
time = "0.3"
tokio = { version = "1", features = ["full"] }
tokio-util = { version = "0.7", features = ["io"] }
tower-http = { version = "0.6", features = ["limit", "fs", "trace", "cors"] }
tracing = "0.1"
tracing-subscriber = { version = "0.3", features = ["env-filter"] }
