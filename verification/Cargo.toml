[package]
name = "cosmogony"
version = "0.1.0"
edition = "2021"
publish = false

[dependencies]
geo = "=0.33.1"
geojson = "=1.0.0"
osmpbfreader = "=0.16.1"
osm_boundaries_utils = "=0.12.0"
serde = { version = "*", features = ["derive"] }
serde_json = "*"
serde_yaml = "*"
flate2 = "*"
structopt = "*"
