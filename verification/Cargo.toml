[package]
name = "facility_booking"
version = "0.1.0"
edition = "2021"
publish = false

[dependencies]
uuid = { version = "1", features = ["v4"] }
chrono = "0.4"
rand = "0.9"
clap = { version = "4", features = ["derive"] }
