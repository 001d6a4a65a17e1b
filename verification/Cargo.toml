[package]
name = "flash"
version = "0.1.0"
edition = "2021"
publish = false

[dependencies]
chrono = "0.4"
kamadak-exif = "0.5"
regex = "1"
sha1 = "0.10"
serde = { version = "1", features = ["derive"] }
serde_json = "1"
walkdir = "2"
filetime = "0.2"
rayon = "1"
