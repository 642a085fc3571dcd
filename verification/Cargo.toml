[package]
name = "voxel_terrain"
version = "0.1.0"
edition = "2021"
publish = false

[dependencies]
rustc-hash = "=2.1.3"
itertools = "=0.15.0"
glam = "=0.34.2"
bracket-noise = "=0.8.7"
rand = "=0.8.8"
log = "=0.4.35"
env_logger = "=0.11.11"
rayon = "=1.12.0"
generational-arena = "0.2"
