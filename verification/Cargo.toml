[package]
name = "launcher"
version = "0.1.0"
edition = "2021"
publish = false

[dependencies]
nucleo-matcher = "=0.3.1"
fuzzy-matcher = "=0.3.7"
regex = "=1.13.1"
imagesize = "=0.14.0"
image = { version = "=0.25.10", default-features = false, features = ["png", "jpeg", "gif", "webp", "bmp"] }
strsim = "=0.11.1"
serde = { version = "1", features = ["derive"] }
serde_json = "=1.0.154"
rusqlite = { version = "=0.37.0", default-features = false, features = ["bundled"] }
dirs = "=6.0.0"
notify = "=8.2.1"
if-addrs = "=0.13.4"
egui = { version = "0.33", default-features = false, features = ["default_fonts"] }
eframe = { version = "0.33", default-features = false, features = ["glow", "wayland", "default_fonts"] }
