[package]
name = "picoforge"
version = "0.1.0"
edition = "2021"
publish = false

[dependencies]
hex = "0.4"
ring = "0.17"
serde = { version = "1", features = ["derive"] }
serde_json = "1"
chrono = "0.4"
chrono-tz = "*"
directories = "*"
log = "0.4"
log4rs = "1"
pcsc = "2"
rand = "*"
windows-sys = { version = "*", features = ["Win32_Foundation", "Win32_Security", "Win32_System_Threading", "Win32_System_Com", "Win32_UI_Shell", "Win32_UI_WindowsAndMessaging"] }
