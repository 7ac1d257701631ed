[package]
name = "gps_cluster"
version = "0.1.0"
edition = "2021"
publish = false

[dependencies]
geoutils = "*"
chrono = { version = "0.4", default-features = false, features = ["std"] }
clap = { version = "4", features = ["derive"] }
kamadak-exif = "*"
google_maps = "*"
tokio = { version = "1", features = ["rt-multi-thread"] }
