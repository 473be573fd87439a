[package]
name = "invok_core"
version = "0.1.0"
edition = "2021"
publish = false

[dependencies]
rand = "0.8"
dashmap = "5"
bollard = "0.16"
redis = { version = "0.25", features = ["tokio-comp"] }
reqwest = { version = "0.11", default-features = false, features = ["json"] }
serde = { version = "1", features = ["derive"] }
serde_json = "1"
tokio = { version = "1", features = ["macros", "rt-multi-thread", "time", "sync"] }
tokio-stream = "0.1"
futures-util = "0.3"
