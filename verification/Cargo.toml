[package]
name = "voxel_rle"
version = "0.1.0"
edition = "2021"
publish = false

[dependencies]
log = "0.4"
pretty_env_logger = "0.4"
