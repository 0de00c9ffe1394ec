[package]
name = "plc_gateway"
version = "0.1.0"
edition = "2021"
publish = false

[dependencies]
chrono = "*"
tokio = { version = "*", features = ["full"] }
serde = { version = "*", features = ["derive"] }
serde_json = "*"
axum = "*"
tower-http = { version = "*", features = ["cors", "fs"] }
tokio-stream = { version = "*", features = ["sync"] }
futures = "*"
async-stream = "*"
bytes = "*"
