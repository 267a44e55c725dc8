[package]
name = "frame_cache"
version = "0.1.0"
edition = "2021"
publish = false

[dependencies]
bytemuck = { version = "1.24", features = ["derive"] }
fnv = "1.0.7"
swf = "0.4.0"
wgpu = { version = "27.0.1", default-features = false }
