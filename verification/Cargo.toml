[package]
name = "grandstrat"
version = "0.1.0"
edition = "2021"
publish = false

[dependencies]
bytemuck = "1"
eframe = { version = "0.31", default-features = false, features = ["default_fonts", "glow", "x11"] }
glow = "0.16"
image = { version = "0.25", default-features = false, features = ["jpeg"] }
rayon = "1"
serde = { version = "1", features = ["derive"] }
serde_json = "1"
