[package]
name = "engine"
version = "0.1.0"
edition = "2021"
publish = false

[dependencies]
ash = "0.38"
ash-window = "0.13"
raw-window-handle = "0.6"
glam = "0.29"
anyhow = "1"
log = "0.4"
resvg = { version = "0.45", default-features = false }
