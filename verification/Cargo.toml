[package]
name = "md_reader"
version = "0.1.0"
edition = "2021"
publish = false

[dependencies]
eframe = { version = "=0.34.3", default-features = false, features = ["default_fonts", "glow", "x11", "persistence"] }
egui = "=0.34.3"
egui_extras = "=0.34.3"
egui_commonmark = "0.23"
notify = "8"
serde = { version = "1", features = ["derive"] }
