[package]
name = "when2task"
version = "0.1.0"
edition = "2021"
publish = false

[dependencies]
uuid = { version = "*", features = ["v4"] }
tokio = { version = "*", features = ["rt", "rt-multi-thread", "time", "sync"] }
futures = "*"
dashmap = "*"
