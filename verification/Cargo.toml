[package]
name = "entropia"
version = "0.1.0"
edition = "2021"
publish = false

[dependencies]
unic-ucd = "0.9"
termios = "0.3"
