[package]
name = "clipkeep"
version = "0.1.0"
edition = "2021"
publish = false

[dependencies]
eframe = { version = "=0.36.2", default-features = false, features = ["glow", "x11"] }
libc = "=0.2.190"
serde = { version = "=1.0.229", features = ["derive"] }
x11-clipboard = "=0.9.3"
x11rb = "=0.13.2"
