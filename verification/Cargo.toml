[package]
name = "subtitle_align"
version = "0.1.0"
edition = "2021"
publish = false

[dependencies]
similar = "=2.7.0"
glfw = "*"
glow = "*"
soloud = "*"
