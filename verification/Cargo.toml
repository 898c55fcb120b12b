[package]
name = "meif"
version = "0.1.0"
edition = "2021"
publish = false

[dependencies]
colored = "2"
image = { version = "0.25", default-features = false, features = ["png", "jpeg", "gif", "bmp"] }
macroquad = { version = "0.4", default-features = false }
