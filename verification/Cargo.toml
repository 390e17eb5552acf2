[package]
name = "mapbox_maps"
version = "0.1.0"
edition = "2021"
publish = false

[dependencies]
radix_fmt = "=1.0.0"
nalgebra = "=0.35.0"
num = "=0.4.3"
serde = { version = "=1.0.229", features = ["derive"] }
serde_json = "=1.0.154"
