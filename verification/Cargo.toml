[package]
name = "firewall"
version = "0.1.0"
edition = "2021"
publish = false

[dependencies]
aya = "*"
ipnet = "*"
tokio = { version = "*", default-features = false, features = ["rt"] }
bytes = "*"
serde = { version = "*", features = ["derive"] }
serde_json = "*"
chrono = "*"
uuid = "*"
tracing = "*"
