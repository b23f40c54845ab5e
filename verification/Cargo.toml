[package]
name = "nd_renderer"
version = "0.1.0"
edition = "2021"
publish = false

[dependencies]
macroquad = "0.4"
nalgebra = "0.33"
serde = { version = "1", features = ["derive"] }
sfml = "0.21"
toml = "0.5"
walkdir = "2"
