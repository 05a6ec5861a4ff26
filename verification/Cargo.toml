[package]
name = "stormforge-core"
version = "0.1.0"
edition = "2021"
publish = false

[dependencies]
base64 = "0.22"
flate2 = "1"
quick-xml = "0.37"
serde = { version = "1", features = ["derive"] }
serde_json = "1"
dirs = "5"
zip = "2"
reflink-copy = "0.1"
rayon = "1"
thiserror = "1"
chrono = "0.4"

[dev-dependencies]
serde_json = "1"
