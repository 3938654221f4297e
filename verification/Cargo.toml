[package]
name = "wt_tools"
version = "0.1.0"
edition = "2021"
publish = false

[dependencies]
bytes = "=1.12.1"
chrono = { version = "=0.4.45", default-features = false, features = ["clock"] }
dialoguer = { version = "=0.11.0", default-features = false }
futures = "=0.3.34"
if-addrs = "=0.13.4"
lazy_static = "=1.5.1"
mdns-sd = "=0.11.5"
opus = "0.3"
r2d2 = "=0.8.10"
r2d2_sqlite = { version = "=0.24.0", features = ["bundled"] }
rand = "=0.8.8"
rusqlite = { version = "=0.31.0", features = ["bundled"] }
serde_json = "=1.0.154"
tokio = { version = "=1.54.1", features = ["rt-multi-thread", "macros", "net", "sync", "time", "signal"] }
tokio-tungstenite = "=0.24.0"
webrtc = "=0.11.0"
