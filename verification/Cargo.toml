[package]
name = "profiler"
version = "0.1.0"
edition = "2021"
publish = false

[dependencies]
anyhow = "=1.0.104"
bincode = "=1.3.3"
egui = "0.27"
once_cell = "=1.21.4"
rfd = "0.14"
