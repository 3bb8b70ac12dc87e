[package]
name = "calculator"
version = "0.1.0"
edition = "2021"
publish = false

[dependencies]
egui = "=0.27.2"
egui_extras = "=0.27.2"
serde = { version = "*", features = ["derive"] }
