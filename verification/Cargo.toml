[package]
name = "databend_plan"
version = "0.1.0"
edition = "2021"
publish = false

[dependencies]
serde = { version = "1", features = ["derive", "rc"] }
serde_json = "1"
