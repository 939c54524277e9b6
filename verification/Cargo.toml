[package]
name = "naming_listener"
version = "0.1.0"
edition = "2021"
publish = false

[dependencies]
actix = "*"
anyhow = "*"
chrono = "*"
flate2 = "*"
prost = "*"
serde = { version = "*", features = ["derive"] }
serde_json = "*"
sled = "*"
tokio = { version = "*", features = ["full"] }
