[package]
name = "diskscope"
version = "0.1.0"
edition = "2021"
publish = false

[dependencies]
eframe = { version = "*", default-features = false, features = ["default_fonts", "glow", "x11"] }
egui = { version = "*", default-features = false, features = ["default_fonts"] }
libc = "0.2"
parking_lot = "0.12"
rayon = "1"
rfd = { version = "*", default-features = false, features = ["xdg-portal"] }
serde = { version = "1", features = ["derive"] }
serde_json = "1"
trash = "*"
