[package]
name = "gemini_video_player"
version = "0.1.0"
edition = "2021"
publish = false

[dependencies]
gemini-engine = "=0.7.5"
image = { version = "=0.24.9", default-features = false, features = ["png"] }
