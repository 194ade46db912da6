[package]
name = "lottery_core"
version = "0.1.0"
edition = "2021"
publish = false

[dependencies]
uuid = { version = "1", features = ["v4"] }
chrono = "0.4"
rand = "0.8"
serde = { version = "1", features = ["derive"] }
actix-web = "4"
actix-cors = "0.7"
env_logger = "0.11"
