[package]
name = "contextor"
version = "0.1.0"
edition = "2021"
publish = false

[dependencies]
eframe = { version = "*", default-features = false }
egui = "*"
rfd = { version = "*", default-features = false }
arboard = "*"
ignore = "*"
rayon = "*"
