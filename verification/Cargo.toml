[package]
name = "mono_scanner"
version = "0.1.0"
edition = "2021"
publish = false

[dependencies]
process-memory = "*"
sysinfo = "0.30"
