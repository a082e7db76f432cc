[package]
name = "eventcam_converter"
version = "0.1.0"
edition = "2021"
publish = false

[dependencies]
byteorder = "=1.5.0"
clap = "=2.34.0"
csv = "=1.4.0"
