[package]
name = "clipboard_history"
version = "0.1.0"
edition = "2021"
publish = false

[dependencies]
arboard = { version = "3", default-features = false }
iced = { version = "0.12", default-features = false, features = ["tokio"] }
sled = "0.34"
tokio = { version = "1", features = ["rt", "sync", "time"] }
