[package]
name = "renderer"
version = "0.1.0"
edition = "2021"
publish = false

[dependencies]
cgmath = "0.18"
env_logger = "0.10"
image = "0.24"
log = "0.4"
pixels = "0.13"
winit = "0.28"
winit_input_helper = "0.14"
