[package]
name = "vizia"
version = "0.1.0"
edition = "2021"
publish = false

[dependencies]
femtovg = "0.2"
glutin = "0.27"
keyboard-types = "0.6"
morphorm = "0.2"
