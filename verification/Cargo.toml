[package]
name = "voxel_engine"
version = "0.1.0"
edition = "2021"
publish = false

[dependencies]
crossbeam-channel = "=0.5.17"
noise = "=0.9.0"
rand = "=0.10.3"
ordermap = "*"
