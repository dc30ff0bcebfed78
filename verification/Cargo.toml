[package]
name = "audio_split"
version = "0.1.0"
edition = "2021"
publish = false

[dependencies]
iced = { version = "0.14", default-features = false, features = ["tiny-skia", "canvas", "tokio", "x11"] }
rfd = "0.15"
rodio = "0.21"
tokio = { version = "1", features = ["process", "fs", "rt"] }
