[package]
name = "rbd_graph"
version = "0.1.0"
edition = "2021"
publish = false

[dependencies]
anyhow = "1"
catppuccin-egui = "3.0"
eframe = { version = "0.22", default-features = false, features = ["default_fonts", "glow"] }
egui = "0.22"
serde = { version = "1", features = ["derive"] }
statrs = { version = "0.16", default-features = false }
tracing-subscriber = "0.3"
