[package]
name = "ward"
version = "0.1.0"
edition = "2021"
publish = false

[dependencies]
libc = "0.2"
winit = "0.30"
softbuffer = "0.4"
fontdue = "0.9"
