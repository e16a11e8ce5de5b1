[package]
name = "tsr"
version = "0.6.0"
edition = "2021"
publish = false

[dependencies]
glob = "0.3"
libc = "0.2"
ratatui = "0.29"
serde_json = "1"
toml_edit = "0.22"
windows-sys = { version = "0.59", features = ["Win32_Foundation", "Win32_System_Console", "Win32_System_JobObjects", "Win32_Security", "Win32_System_Threading"] }
