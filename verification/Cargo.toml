[package]
name = "calendar"
version = "0.1.0"
edition = "2021"
publish = false

[dependencies]
chrono = "0.4"
chrono-tz = "*"
ical = "*"
reqwest = { version = "0.12", features = ["blocking"] }
