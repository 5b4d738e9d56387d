[package]
name = "telepy_parser"
version = "0.1.0"
edition = "2021"
publish = false

[dependencies]
anyhow = "1"
flate2 = "1"
ignore = "0.4"
memchr = "2"
memmap2 = "0.9"
parking_lot = "0.12"
rayon = "1"
reqwest = { version = "0.12", default-features = false, features = ["blocking", "json", "rustls-tls"] }
rustc-hash = "2"
rustpython-parser = "0.4"
serde = { version = "1", features = ["derive"] }
serde_json = "1"
tar = "0.4"
