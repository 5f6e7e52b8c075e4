[package]
name = "wfc"
version = "0.1.0"
edition = "2021"
publish = false

[dependencies]
macroquad = { version = "=0.3.26", default-features = false }
nanoserde = "=0.1.37"
configparser = "=3.3.0"
