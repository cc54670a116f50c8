[package]
name = "boids"
version = "0.1.0"
edition = "2021"
publish = false

[dependencies]
argh = "*"
colors-transform = "*"
image = "*"
indicatif = "*"
rand = "*"
rayon = "*"
serde = { version = "*", features = ["derive"] }
serde_json = "*"
