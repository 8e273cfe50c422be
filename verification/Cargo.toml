[package]
name = "ti82_link"
version = "0.1.0"
edition = "2021"
publish = false

[dependencies]
heapless = "=0.8.0"
clap = { version = "=4.6.7", features = ["derive"] }
color-eyre = "=0.6.5"
serialport = { version = "=4.10.1", default-features = false }
nb = "1"
ufmt = "0.2"
