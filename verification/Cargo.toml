[package]
name = "jolt"
version = "0.1.0"
edition = "2021"
publish = false

[dependencies]
anyhow = "1"
clap = { version = "4", features = ["derive"] }
indicatif = "0.17"
serialport = { version = "4", default-features = false }
thiserror = "2"
