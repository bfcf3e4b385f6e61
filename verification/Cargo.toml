[package]
name = "prom_write"
version = "0.1.0"
edition = "2021"
publish = false

[dependencies]
anyhow = "1"
http = "1"
prometheus-parse = "0.2"
snap = "1"
ureq = { version = "2", default-features = false }
url = "2"
