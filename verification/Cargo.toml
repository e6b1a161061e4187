[package]
name = "spellbound"
version = "0.1.0"
edition = "2021"
publish = false

[dependencies]
rand = "0.4"
piston_window = "*"
find_folder = "*"
gfx = "*"
gfx_device_gl = "*"
piston2d-gfx_graphics = "*"
