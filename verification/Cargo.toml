[package]
name = "raytracer"
version = "0.1.0"
edition = "2021"
publish = false

[dependencies]
itertools = "0.14"
nalgebra = "0.33"
rand = "0.8"
rayon = "1"
