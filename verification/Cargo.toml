[package]
name = "utools"
version = "0.1.0"
edition = "2021"
publish = false

[dependencies]
base64 = "=0.23.1"
percent-encoding = "=2.3.2"
chrono = "=0.4.45"
serde = "*"
serde_json = "=1.0.151"
