[package]
name = "pipe_logger"
version = "0.1.0"
edition = "2021"
publish = false

[dependencies]
byte-unit = "4"
anyhow = "1"
xz2 = "0.1"
