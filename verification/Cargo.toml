[package]
name = "mesh_inspect"
version = "0.1.0"
edition = "2021"
publish = false

[dependencies]
rayon = "*"
serde = { version = "*", features = ["derive"] }
gltf = "*"
memmap2 = "*"
walkdir = "*"
