[package]
name = "orecchiette_fpv_analog"
version = "0.1.0"
edition = "2021"
publish = false

[dependencies]
bytemuck = { version = "1", features = ["derive"] }
log = "0.4"
num-complex = { version = "0.4", features = ["bytemuck"] }
ort = { version = "2.0.0-rc.10", default-features = false, features = ["std", "load-dynamic"] }
pollster = "*"
rayon = "1"
rustfft = "6"
serde = { version = "1", features = ["derive"] }
wgpu = "*"
wide = "*"
