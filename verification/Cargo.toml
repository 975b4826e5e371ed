[package]
name = "media_fetch"
version = "0.1.0"
edition = "2021"
publish = false

[dependencies]
url = "2"
bytes = "1"
reqwest = "0.12"
tokio = { version = "1", features = ["macros", "rt-multi-thread", "sync"] }
serde = { version = "1", features = ["derive"] }
serde_json = "1"
clap = { version = "4", features = ["derive"] }
