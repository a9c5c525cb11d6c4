[package]
name = "file_manager"
version = "0.1.0"
edition = "2021"
publish = false

[dependencies]
chrono = "0.4"
anyhow = "1"
tokio = { version = "1", features = ["net", "io-util", "sync", "rt-multi-thread", "macros", "time"] }
tower = "0.5"
