[package]
name = "sentinel"
version = "0.1.0"
edition = "2021"
publish = false

[dependencies]
bevy = { version = "=0.17.3", default-features = false, features = ["std", "async_executor", "multi_threaded", "bevy_state", "bevy_log", "bevy_window"] }
directories = "=6.0.0"
strum = { version = "=0.27.2", features = ["derive"] }
ratatui = "=0.29.0"
