[package]
name = "robot_reboot"
version = "0.1.0"
edition = "2021"
publish = false

[dependencies]
chrono = "0.4"
curl = { version = "0.4", default-features = false }
enum-map = "*"
serde = { version = "1", features = ["derive"] }
serde_json = "1"
