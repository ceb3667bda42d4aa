[package]
name = "wbdd"
version = "0.1.0"
edition = "2021"
publish = false

[dependencies]
clarabel = "0.11"
k = "0.32"
serde = { version = "1", features = ["derive"] }
serde_yaml_ng = "0.10"
