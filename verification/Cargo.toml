[package]
name = "statseries"
version = "0.1.0"
edition = "2021"
publish = false

[dependencies]
chrono = "0.4"
colorous = "1"
failure = "0.1"
horrorshow = "0.8"
im = "15"
reqwest = { version = "0.11", features = ["blocking", "json"] }
serde = { version = "1", features = ["derive"] }
serde_json = "1"
