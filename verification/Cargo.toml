[package]
name = "wicket_guard"
version = "0.1.0"
edition = "2021"
publish = false

[dependencies]
sha2 = "0.10"
chrono = "0.4"
clap = { version = "4", features = ["derive"] }
serde_json = "1"
