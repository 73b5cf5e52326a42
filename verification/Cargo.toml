[package]
name = "honeycomb"
version = "0.1.0"
edition = "2021"
publish = false

[dependencies]
serde = { version = "1", features = ["derive"] }
serde_json = "1"
rand = "0.8"
clap = { version = "4", features = ["derive"] }
macroquad = "0.4"
csv = "1"
shapefile = "0.6"
strum = { version = "0.26", features = ["derive"] }
