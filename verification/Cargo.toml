[package]
name = "thought_map"
version = "0.1.0"
edition = "2021"
publish = false

[dependencies]
egui = { version = "0.20", default-features = false, features = ["default_fonts"] }
eframe = { version = "0.20", default-features = false, features = ["glow", "default_fonts"] }
