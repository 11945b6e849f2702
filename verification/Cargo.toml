[package]
name = "lending_ledger"
version = "0.1.0"
edition = "2021"
publish = false

[dependencies]
chrono = { version = "=0.4.45", features = ["serde"] }
serde = { version = "=1.0.229", features = ["derive"] }
serde_json = "=1.0.154"
eframe = { version = "=0.24.1", default-features = false, features = ["default_fonts", "glow", "x11"] }
egui = "=0.24.1"
egui_extras = { version = "=0.24.2", default-features = false, features = ["datepicker"] }
egui_plot = "=0.24.2"
image = { version = "=0.24.9", default-features = false, features = ["png", "jpeg", "gif", "bmp"] }
rfd = { version = "0.14", default-features = false, features = ["xdg-portal", "tokio"] }
