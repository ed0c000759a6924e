[package]
name = "benchcli"
version = "0.1.0"
edition = "2021"
publish = false

[dependencies]
axum = "0.8"
libc = "0.2"
serde = { version = "1", features = ["derive"] }
serde_json = "1"
socket2 = { version = "0.5", features = ["all"] }
tokio = { version = "1", features = ["rt-multi-thread", "net", "io-util", "time", "macros", "sync", "signal"] }
