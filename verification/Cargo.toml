[package]
name = "weaver"
version = "0.1.0"
edition = "2021"
publish = false

[dependencies]
serde = { version = "1", features = ["derive"] }
bincode = { version = "2", features = ["serde"] }
thiserror = "2"
tokio = { version = "1", features = ["rt", "rt-multi-thread", "time", "macros"] }
tokio-stream = "0.1"
async-stream = "0.3"
