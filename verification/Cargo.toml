[package]
name = "weight_folders"
version = "0.1.0"
edition = "2021"
publish = false

[dependencies]
chrono = "0.4"
directories = "*"
eframe = { version = "*", default-features = false, features = ["glow", "default_fonts", "x11"] }
egui = "*"
humansize = "2"
open = "5"
rayon = "1"
rfd = { version = "*", default-features = false }
rmp-serde = "1"
serde = { version = "1", features = ["derive"] }
serde_json = "1"
trash = "5"
zstd = "0.13"
