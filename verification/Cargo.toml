[package]
name = "ruvector"
version = "0.1.0"
edition = "2021"
publish = false

[dependencies]
anyhow = "1"
bincode = "2.0"
chrono = "0.4"
once_cell = "1"
parking_lot = "0.12"
redb = "2"

[dev-dependencies]
tempfile = "3"
