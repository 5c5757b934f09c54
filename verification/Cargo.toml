[package]
name = "syncables"
version = "0.1.0"
edition = "2021"
publish = false

[dependencies]
serde = { version = "1", features = ["derive"] }
serde_json = { version = "1", features = ["preserve_order"] }
serde_yaml_ng = "*"
thiserror = "*"
tokio = { version = "1", features = ["fs"] }
