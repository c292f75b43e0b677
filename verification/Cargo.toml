[package]
name = "thermal"
version = "0.1.0"
edition = "2021"
publish = false

[dependencies]
ash = "0.38"
ash-window = "0.13"
raw-window-handle = "0.6"
regex = "1"
spirv-cross2 = "*"
glam = "*"
png = "*"
winit = "0.30"
proc-macro2 = "1"
quote = "1"
syn = { version = "2", features = ["full"] }
proc-macro-crate = "3"
shader-slang = "*"
sdl3-sys = "*"
