[package]
name = "radar_monitor"
version = "0.1.0"
edition = "2021"
publish = false

[dependencies]
ftp = "3.0.1"
glium = "0.32"
image = { version = "0.24", default-features = false, features = ["png"] }
