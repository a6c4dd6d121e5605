[package]
name = "blocker"
version = "0.1.0"
edition = "2021"
publish = false

[dependencies]
chrono = "0.4"
directories = "*"
timer = "0.2"
