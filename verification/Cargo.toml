[package]
name = "quadtree_art"
version = "0.1.0"
edition = "2021"
publish = false

[dependencies]
image = { version = "0.25", default-features = false, features = ["png", "jpeg", "gif", "bmp", "tiff", "webp"] }
imageproc = { version = "0.25", default-features = false }
clap = { version = "4", features = ["derive"] }
