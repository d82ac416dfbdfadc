[package]
name = "meetily_audio"
version = "0.1.0"
edition = "2021"
publish = false

[dependencies]
anyhow = "1"
cidre = "*"
futures-util = "0.3"
objc = "0.2"
serde = { version = "1", features = ["derive"] }
sysinfo = "0.32"
tokio = { version = "1", features = ["rt-multi-thread", "sync", "time", "macros"] }

[dev-dependencies]
serde_json = "1"
