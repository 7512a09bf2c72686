[package]
name = "mass_storage"
version = "0.1.0"
edition = "2021"
publish = false

[dependencies]
rusb = "*"
fatfs = "*"
fscommon = "*"
mbrman = "*"
anyhow = "*"
clap = { version = "*", features = ["derive"] }
chrono = "*"
rand = "*"
tracing = "*"
tracing-subscriber = "*"
