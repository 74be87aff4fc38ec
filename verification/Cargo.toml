[package]
name = "imagemami"
version = "0.1.0"
edition = "2021"
publish = false

[dependencies]
base64 = "0.22"
blake3 = "1"
chrono = { version = "0.4", default-features = false, features = ["clock"] }
dashmap = "6"
dirs = "6"
image = { version = "0.25", default-features = false, features = ["bmp", "gif", "jpeg", "png", "tiff", "webp"] }
once_cell = "1"
rayon = "1"
serde = { version = "1", features = ["derive"] }
serde_json = "1"
sysinfo = { version = "0.37", default-features = false, features = ["disk"] }
walkdir = "2"
