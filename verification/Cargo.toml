[package]
name = "slammer"
version = "0.1.0"
edition = "2021"
publish = false

[dependencies]
serde = { version = "1", features = ["derive"] }
serde_json = "1"
hound = "3"
directories = "*"
parking_lot = "*"
tracing = "*"
tracing-subscriber = { version = "*", features = ["env-filter"] }
realfft = "*"
rtrb = "*"
rfd = "*"
