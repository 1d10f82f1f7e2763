[package]
name = "daw_audio"
version = "0.1.0"
edition = "2021"
publish = false

[dependencies]
anyhow = "1"
cpal = "*"
hound = "3.5"
