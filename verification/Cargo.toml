[package]
name = "aerodesk"
version = "0.1.0"
edition = "2021"
publish = false

[dependencies]
base64 = "0.22"
rand = "0.8"
qrcode = { version = "0.14", default-features = false }
serde = { version = "1", features = ["derive"] }
serde_json = "1"
dirs = "5"
hostname = "0.4"
local-ip-address = "0.6"
tokio = { version = "1", features = ["net", "time", "sync", "macros", "rt-multi-thread"] }
tokio-tungstenite = "0.24"
futures-util = { version = "0.3", features = ["sink"] }
tracing = "0.1"
tracing-subscriber = { version = "0.3", features = ["env-filter"] }
zbus = "5"
