[package]
name = "rping"
version = "0.1.0"
edition = "2021"
publish = false

[dependencies]
rand = "0.8"
clap = { version = "4", features = ["derive"] }
libc = "0.2"
socket2 = { version = "0.5", features = ["all"] }
