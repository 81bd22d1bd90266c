[package]
name = "log_print"
version = "0.1.2"
edition = "2021"
publish = false

[dependencies]
anyhow = "1"
chrono = "0.4"
serde = { version = "1", features = ["derive"] }
serde_json = "1"
sha2 = "0.10"
tokio = { version = "1", features = ["rt-multi-thread", "macros", "net", "io-util", "sync", "time"] }
uuid = { version = "1", features = ["v4"] }
