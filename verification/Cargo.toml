[package]
name = "crab-gallery"
version = "0.1.0"
edition = "2021"
publish = false

[dependencies]
axum = "=0.8.9"
base64 = "=0.22.1"
chrono = { version = "=0.4.45", features = ["serde"] }
clap = { version = "=4.6.7", features = ["derive"] }
form_urlencoded = "=1.2.2"
futures-util = "=0.3.34"
http-body-util = "=0.1.5"
libvips = "=2.3.0"
mimetype-detector = "=0.3.13"
multer = "=3.1.0"
notify = "=8.2.1"
serde = { version = "=1.0.229", features = ["derive"] }
tera = { version = "=2.4.0", features = ["glob_fs"] }
tokio = { version = "=1.54.1", features = ["full"] }
walkdir = "=2.5.0"
