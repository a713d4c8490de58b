[package]
name = "tachyon_json"
version = "0.1.0"
edition = "2021"
publish = false

[dependencies]
ryu = "1"

[dev-dependencies]
serde_json = "1"
