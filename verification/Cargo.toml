[package]
name = "microservicedb"
version = "2.0.0"
edition = "2021"
publish = false

[dependencies]
chrono = "0.4"
dotenvy = "0.15"
flate2 = "1"
futures = "0.3"
futures-util = "0.3"
local-ip-address = "0.6"
mongodb = "3"
redis = { version = "0.27", features = ["tokio-comp"] }
regex = "1"
serde = { version = "1", features = ["derive"] }
serde_json = { version = "1", features = ["preserve_order"] }
tokio = { version = "1", features = ["full"] }
tokio-tungstenite = "0.24"
warp = { version = "0.3", features = ["tls"] }
