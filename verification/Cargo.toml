[package]
name = "niri-taskbar"
version = "0.4.0"
edition = "2021"
publish = false

[dependencies]
regex = "1"
serde = { version = "1", features = ["derive"] }
niri-ipc = "25.11"
waybar-cffi = "*"
async-channel = "2"
futures = "0.3"
itertools = "0.14"
tracing = "0.1"
tracing-subscriber = { version = "0.3", features = ["env-filter"] }
