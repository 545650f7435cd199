[package]
name = "cellular_automata"
version = "0.1.8"
edition = "2021"
publish = false

[dependencies]
rand = "0.10.3"
eframe = { version = "0.37.0", default-features = false, features = ["default_fonts", "glow", "wayland", "x11"] }
rfd = "0.17.2"
