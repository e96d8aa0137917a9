[package]
name = "openprofiler"
version = "0.1.0"
edition = "2021"
publish = false

[dependencies]
anyhow = "1"
arboard = { version = "3", default-features = false }
chrono = "0.4"
crossterm = "*"
jni = "0.21"
jvmti = "*"
prost = "*"
ratatui = "*"
serde_json = "1"
windows-sys = { version = "*", features = ["Win32_Foundation", "Win32_System_Threading", "Win32_System_WindowsProgramming"] }
