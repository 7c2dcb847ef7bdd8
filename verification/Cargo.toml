[package]
name = "gallery_accel"
version = "0.1.0"
edition = "2021"
publish = false

[dependencies]
anyhow = "1"
chrono = "0.4"
image = { version = "0.25", default-features = false, features = ["jpeg", "png", "gif", "webp", "bmp"] }
ort = { version = "2.0.0-rc.10", default-features = false, features = ["std", "ndarray", "load-dynamic", "cuda", "openvino"] }
rusqlite = { version = "*", features = ["bundled", "backup", "collation"] }
serde = { version = "1", features = ["derive"] }
serde_json = "1"
url = "2"
uuid = { version = "1", features = ["v4"] }

[dev-dependencies]
tempfile = "3"
