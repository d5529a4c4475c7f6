[package]
name = "gazflow"
version = "0.1.0"
edition = "2021"
publish = false

[dependencies]
csv = "=1.4.0"
quick-xml = "=0.37.5"
anyhow = "=1.0.104"
serde = { version = "1", features = ["derive"] }
serde_json = "1"
serde_yaml = "0.9"
