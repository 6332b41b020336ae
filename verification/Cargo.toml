[package]
name = "cursorpack"
version = "0.1.0"
edition = "2021"
publish = false

[dependencies]
image = { version = "0.25", default-features = false, features = ["png", "gif", "bmp", "webp"] }
resvg = "0.45"
vtracer = "0.6"
serde = { version = "1", features = ["derive"] }
serde_json = "1"
thiserror = "2"
winreg = "0.55"
windows-sys = { version = "0.59", features = ["Win32_Foundation", "Win32_Graphics_Gdi", "Win32_UI_WindowsAndMessaging"] }
log = "0.4"
env_logger = "0.11"
