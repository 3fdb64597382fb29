[package]
name = "offset_finder"
version = "0.1.0"
edition = "2021"
publish = false

[dependencies]
sysinfo = "0.33"
