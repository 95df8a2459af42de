[package]
name = "zarrs_cache"
version = "0.1.0"
edition = "2021"
publish = false

[dependencies]
lru = "*"
flate2 = "*"
chrono = "*"
bytes = "*"
serde = { version = "*", features = ["derive"] }
