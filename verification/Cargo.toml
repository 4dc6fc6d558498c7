[package]
name = "parser_core"
version = "0.1.0"
edition = "2021"
publish = false

[dependencies]
wgpu = "22"
pollster = "0.3"
bytemuck = "1"
env_logger = "0.11"
