[package]
name = "host"
version = "0.1.0"
edition = "2021"
publish = false

[dependencies]
serde = { version = "1", features = ["derive"] }
serde_json = "1"
toml = "*"
tokio = { version = "1", features = ["full"] }
tao = "*"
wry = "*"
objc2 = "*"
objc2-foundation = "*"
