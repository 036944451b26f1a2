[package]
name = "tarea"
version = "0.1.0"
edition = "2021"

[dependencies]
uuid = { version = "*", features = ["v4"] }
serde = { version = "*", features = ["derive"] }
serde_json = "*"
clap = { version = "*", features = ["derive"] }
dirs = "*"
lazy_static = "*"
owo-colors = "*"
