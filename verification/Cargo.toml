[package]
name = "kml_walks"
version = "0.1.0"
edition = "2021"
publish = false

[dependencies]
csv = "=1.4.0"
geoutils = "=0.5.1"
kml = "=0.8.7"
regex = "=1.13.1"
serde = { version = "=1.0.229", features = ["derive"] }
