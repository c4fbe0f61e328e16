[package]
name = "presence_log"
version = "0.1.0"
edition = "2021"
publish = false

[dependencies]
chrono = "*"
axum = { version = "*", features = ["ws"] }
axum-extra = { version = "*", features = ["cookie-signed"] }
tokio = { version = "*", features = ["full"] }
tower-http = { version = "*", features = ["cors"] }
serde = { version = "*", features = ["derive"] }
serde_json = "*"
sysinfo = "*"
base64 = "*"
rand = "*"
time = "*"
dotenvy = "*"
