[package]
name = "sys_monitor"
version = "0.1.0"
edition = "2021"
publish = false

[dependencies]
sysinfo = { version = "0.33", default-features = false, features = ["disk", "network", "system"] }
windows = { version = "0.57", features = ["Win32_Foundation", "Win32_System_Performance"] }
wmi = "0.13"
