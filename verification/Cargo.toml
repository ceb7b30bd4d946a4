[package]
name = "drone_detection_pipeline"
version = "0.1.0"
edition = "2021"
publish = false

[dependencies]
anyhow = "=1.0.104"
crossbeam-channel = "=0.5.17"
gstreamer = "0.23"
gstreamer-app = "0.23"
image = { version = "=0.25.10", default-features = false }
ndarray = "=0.17.2"
ort = { version = "=2.0.0-rc.12", default-features = false, features = ["std", "ndarray", "load-dynamic", "api-20"] }
