[package]
name = "spade"
version = "0.1.0"
edition = "2021"
publish = false

[dependencies]
slug = "=0.1.6"
serde = { version = "=1.0.229", features = ["derive"] }
serde_yaml = "=0.8.26"
chrono = { version = "=0.4.45", features = ["serde"] }
comrak = "=0.18.0"
tera = "=1.20.1"
clap = "=2.34.0"
notify = "=4.0.18"

[dev-dependencies]
serde_json = "=1.0.151"
