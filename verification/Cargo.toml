[package]
name = "tinypt"
version = "0.2.1"
edition = "2021"
publish = false

[dependencies]
quick-xml = "=0.37.5"
image = { version = "=0.25.10", default-features = false, features = ["png", "jpeg", "exr", "hdr", "tga", "bmp"] }
exr = "=1.74.2"
crossbeam = "=0.8.5"
oidn = "*"
eframe = { version = "0.31", default-features = false, features = ["default_fonts", "glow", "x11"] }
