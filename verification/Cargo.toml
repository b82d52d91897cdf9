[package]
name = "lenia_3"
version = "0.1.0"
edition = "2021"
publish = false

[dependencies]
rand = "0.8"
ndarray = "0.16"
eframe = { version = "0.29", default-features = false, features = ["default_fonts", "glow", "x11"] }
