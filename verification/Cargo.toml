[package]
name = "life_viewport"
version = "0.1.0"
edition = "2021"
publish = false

[dependencies]
anyhow = "=1.0.104"
eframe = "=0.17.0"
egui = "=0.17.0"
