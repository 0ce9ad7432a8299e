[package]
name = "ucore_memory"
version = "0.1.0"
edition = "2021"
publish = false

[dependencies]
spin = "0.9"
lazy_static = "1"
log = "0.4"
xmas-elf = "*"
