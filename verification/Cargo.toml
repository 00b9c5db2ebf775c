[package]
name = "shp_editor"
version = "0.1.0"
edition = "2021"
publish = false

[dependencies]
image = { version = "0.24", default-features = false, features = ["png", "jpeg", "gif"] }
gif = "0.13"
rust-embed = "8"
