[package]
name = "landform"
version = "0.1.0"
edition = "2021"
publish = false

[dependencies]
rand = "0.8.8"
serde = { version = "1", features = ["derive"] }
image = { version = "0.24.9", default-features = false }
naturalneighbor = "1.2.4"
fastlem = "0.1.4"
