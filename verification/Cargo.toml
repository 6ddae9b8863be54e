[package]
name = "kernel"
version = "0.1.0"
edition = "2021"
publish = false

[dependencies]
x86_64 = { version = "0.15", default-features = false, features = ["instructions"] }
bitflags = "2"
lazy_static = { version = "1", features = ["spin_no_std"] }
pc-keyboard = "0.8"
spin = "0.9"
uart_16550 = "0.3"
