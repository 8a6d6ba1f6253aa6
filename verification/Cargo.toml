[package]
name = "cryptkv"
version = "0.1.0"
edition = "2021"
publish = false

[dependencies]
cocoon = "=0.5.0"
age = "=0.12.1"
rand = "=0.9.5"
uuid = { version = "=1.27.0", features = ["v4"] }
hex = "=0.4.3"
serde = { version = "=1.0.229", features = ["derive"] }
serde_json = "=1.0.151"
clap = { version = "=4.6.7", features = ["derive"] }
