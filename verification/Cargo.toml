[package]
name = "hypr_tools"
version = "0.1.0"
edition = "2021"
publish = false

[dependencies]
serde_json = "1"
wayland-client = "0.31"
wayland-scanner = "0.31"
tempfile = "3"
memmap2 = "0.9"
image = { version = "0.25", default-features = false, features = ["png"] }
