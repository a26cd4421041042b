[package]
name = "labyrinth"
version = "0.1.0"
edition = "2021"
publish = false

[dependencies]
rand = "0.8"
egui = "0.27"
eframe = { version = "0.27", default-features = false, features = ["glow", "default_fonts"] }
