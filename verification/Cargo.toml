[package]
name = "overlay"
version = "0.1.0"
edition = "2021"
publish = false

[dependencies]
rayon = "1"
anyhow = "1"
image = { version = "0.24", default-features = false }
