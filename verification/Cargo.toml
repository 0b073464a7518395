[package]
name = "kernel_memory"
version = "0.1.0"
edition = "2021"
publish = false

[dependencies]
x86_64 = { version = "=0.15.5", default-features = false }
spin = "=0.12.3"
lazy_static = "=1.5.1"
