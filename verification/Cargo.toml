[package]
name = "slotplan"
version = "0.1.0"
edition = "2021"
publish = false

[dependencies]
serde = { version = "1", features = ["derive"] }
chrono = { version = "0.4", features = ["serde"] }
uuid = { version = "1", features = ["serde", "v4"] }
humantime = "2"
dirs = "*"
crossterm = "*"
notify-rust = "*"
vedvaring = "*"
