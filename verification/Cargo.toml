[package]
name = "qasmsim"
version = "0.1.0"
edition = "2021"
publish = false

[dependencies]
complex = "=0.7.5"
serde = { version = "=1.0.229", features = ["derive"] }
