[package]
name = "lessi"
version = "0.1.0"
edition = "2021"
publish = false

[dependencies]
base64 = "0.22"
clap = { version = "4", features = ["derive"] }
crossterm = "0.28"
flate2 = "1"
libc = "0.2"
png = "0.17"
unicode-width = "0.2"
