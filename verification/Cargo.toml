[package]
name = "bevox"
version = "0.1.0"
edition = "2021"
publish = false

[dependencies]
bytemuck = "1"
dot_vox = "5"
glam = "0.30"
