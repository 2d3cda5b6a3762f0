[package]
name = "r_archiver"
version = "0.1.0"
edition = "2021"
publish = false

[dependencies]
chrono = "=0.4.45"
flate2 = "=1.1.10"
tar = "=0.4.46"
serde = { version = "=1.0.229", features = ["derive"] }
serde_yaml = "=0.9.34"
sys-mount = { version = "=3.1.1", default-features = false }
