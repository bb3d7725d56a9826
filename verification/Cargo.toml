[package]
name = "luna"
version = "0.1.0"
edition = "2021"
publish = false

[dependencies]
color-eyre = "0.6"
dashmap = "5"
eyre = "0.6"
rusqlite = "*"
tokio = { version = "1", features = ["sync", "rt", "macros"] }

[dev-dependencies]
nom = "7"
