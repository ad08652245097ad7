[package]
name = "area_db"
version = "0.1.0"
edition = "2021"
publish = false

[dependencies]
csv = "1"
flate2 = "1"
rayon = "1"
num_cpus = "1"
parking_lot = "0.12"
geo = "0.28"
clap = "3"
log = "0.4"
memmap2 = "0.9"
mysql = { version = "*", default-features = false }
rusqlite = { version = "*", features = ["bundled"] }
tantivy = "0.22"
