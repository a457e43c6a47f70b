[package]
name = "disk_carver"
version = "1.0.0"
edition = "2021"
publish = false

[dependencies]
anyhow = "1"
chrono = "0.4"
clap = { version = "4", features = ["derive"] }
colored = "2"
comfy-table = "7"
flate2 = "1"
hex = "0.4"
indicatif = "0.17"
md5 = "0.7"
memchr = "2"
memmap2 = "0.9"
num_cpus = "1"
parking_lot = "0.12"
rayon = "1"
serde = { version = "1", features = ["derive"] }
serde_json = "1"
sha2 = "0.10"
thiserror = "1"
walkdir = "2"
