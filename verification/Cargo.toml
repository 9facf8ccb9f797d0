[package]
name = "powercap"
version = "0.1.0"
edition = "2021"
publish = false

[dependencies]
procfs = { version = "*", default-features = false }
serde = { version = "1", features = ["derive"] }
