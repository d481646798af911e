[package]
name = "ndsparse"
version = "0.1.0"
edition = "2021"
publish = false

[dependencies]
rand = "=0.7.3"
rayon = "=1.12.0"
serde = { version = "=1.0.229", features = ["derive"] }
