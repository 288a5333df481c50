[package]
name = "tetris"
version = "0.1.0"
edition = "2021"
publish = false

[dependencies]
rand = "=0.8.8"
gfx = "=0.18.3"
gfx_app = "=0.9.0"
winit = "=0.18.1"
