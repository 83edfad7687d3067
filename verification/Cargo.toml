[package]
name = "findwalk"
version = "0.1.0"
edition = "2021"
publish = false

[dependencies]
ignore = "*"
walkdir = "*"
serde = { version = "*", features = ["derive"] }

[dev-dependencies]
tempfile = "*"
