[package]
name = "subvox"
version = "0.1.0"
edition = "2021"
publish = false

[dependencies]
bytemuck = "1"
memmap2 = "0.9"
realfft = "3"
rayon = "1"
mimalloc = "0.1"
eframe = { version = "*", default-features = false, features = ["glow", "x11"] }
