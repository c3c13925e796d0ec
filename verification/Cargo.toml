[package]
name = "flip"
version = "0.1.0"
edition = "2021"
publish = false

[dependencies]
rdst = { version = "0.20", default-features = false }
wide = "0.7"
ultraviolet = "0.9"
bytemuck = "1"
rayon = "1"
macroquad = "0.4"
