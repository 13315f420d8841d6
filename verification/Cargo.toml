[package]
name = "speedy"
version = "0.1.0"
edition = "2021"
publish = false

[dependencies]
sysinfo = "*"
netstat2 = "*"
eframe = { version = "*", default-features = false }
egui = { version = "*", default-features = false }
