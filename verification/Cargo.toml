[package]
name = "sector"
version = "0.1.0"
edition = "2021"
publish = false

[dependencies]
postcard = { version = "=1.1.3", features = ["use-std"] }
serde = { version = "=1.0.229", features = ["derive"] }
crossbeam-channel = "=0.5.17"
dirs = "=7.0.0"
eframe = { version = "=0.36.1", default-features = false, features = ["wgpu", "x11", "default_fonts", "persistence"] }
egui = { version = "=0.36.1", default-features = false, features = ["default_fonts"] }
egui_extras = { version = "=0.36.1", default-features = false }
env_logger = { version = "=0.11.11", default-features = false }
trash = "=5.2.9"
