[package]
name = "nimbus_core"
version = "0.1.0"
edition = "2021"
publish = false

[dependencies]
sha2 = "0.10"
chrono = "0.4"
serde_json = "1"
uuid = "1"
