[package]
name = "preimage_search"
version = "0.1.0"
edition = "2021"
publish = false

[dependencies]
bytemuck = "1"
pollster = "0.3"
sha2 = "0.10"
wgpu = "22"
