[package]
name = "scene_compiler"
version = "0.1.0"
edition = "2021"
publish = false

[dependencies]
archery = "*"
bitflags = "1"
etagere = "*"
fontdue = "*"
gfx-hal = "*"
