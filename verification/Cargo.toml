[package]
name = "diode"
version = "0.1.0"
edition = "2021"
publish = false

[dependencies]
raptorq = "2"
crossbeam-channel = "0.5"
semka = "*"
core_affinity = "0.8"
libc = "0.2"
log = "0.4"
simplelog = "0.12"
clap = { version = "4", features = ["derive"] }
rand = "*"
