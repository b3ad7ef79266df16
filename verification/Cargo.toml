[package]
name = "tok"
version = "0.1.0"
edition = "2021"
publish = false

[dependencies]
chrono = "0.4"
clap = { version = "2", features = ["yaml"] }
Inflector = "0.11"
serde = { version = "1", features = ["derive"] }
serde_yaml = "0.8"
time = "0.1"
titlecase = "*"
