[package]
name = "checkers"
version = "0.1.0"
edition = "2021"
publish = false

[dependencies]
macroquad = { version = "=0.4.16", default-features = false }
miniquad = "=0.4.11"
egui-macroquad = { version = "=0.17.3", default-features = false }
