[package]
name = "paintings"
version = "0.1.0"
edition = "2021"
publish = false

[dependencies]
rand = "=0.7.3"
oxipng = "=8.0.0"
skia-safe = "=0.153.3"
vector2d = "=3.1.1"
