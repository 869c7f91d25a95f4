[package]
name = "word_legend_app"
version = "0.1.0"
edition = "2021"
publish = false

[dependencies]
rand = "0.8"
serde = { version = "1", features = ["derive"] }
serde_json = "1"
ehttp = "0.5"
eframe = { version = "0.31", default-features = false, features = ["default_fonts", "glow", "x11"] }
arboard = { version = "3", default-features = false }
