[package]
name = "morton_octree"
version = "0.1.0"
edition = "2021"
publish = false

[dependencies]
bitwise = "*"
nalgebra = "*"
