[package]
name = "builder"
version = "0.1.0"
edition = "2021"
publish = false

[dependencies]
chrono = "0.4"
dunce = "1"
indoc = "2"
log = "0.4"
serde = { version = "1", features = ["derive"] }
serde_yaml = "0.9"
simple_logger = "5"
timeago = "0.4"
walkdir = "2"
