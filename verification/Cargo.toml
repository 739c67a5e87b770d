[package]
name = "juggling-core"
version = "0.1.0"
edition = "2021"
publish = false

[dependencies]
regex = "1"
serde = { version = "1", features = ["derive"] }
base64 = "0.22"
flate2 = "1"
roxmltree = "*"
