[package]
name = "augenblick"
version = "0.1.0"
edition = "2021"
publish = false

[dependencies]
uuid = { version = "*", features = ["v4"] }
rusqlite = { version = "*", features = ["bundled"] }
