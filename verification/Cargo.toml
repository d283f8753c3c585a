[package]
name = "rumqttd"
version = "0.1.0"
edition = "2021"
publish = false

[dependencies]
slab = "0.4"
serde = { version = "1", features = ["derive"] }
thiserror = "1"

[dev-dependencies]
serde_json = "1"
