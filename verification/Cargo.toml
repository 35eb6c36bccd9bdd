[package]
name = "raytracer_rust"
version = "0.1.0"
edition = "2021"
publish = false

[dependencies]
image = "0.24"
palette = "0.7"
png = "0.17"
rand = "0.8"
rayon = "1"
serde = { version = "1", features = ["derive"] }
serde_json = "1"
serde_with = "3"
