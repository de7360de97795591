[package]
name = "rakunator"
version = "0.3.0"
edition = "2021"
publish = false

[dependencies]
chrono = "0.4"
dirs = "*"
serde = { version = "1", features = ["derive"] }
serde_json = "1"
hound = "3"
rustfft = "6"
realfft = "3"
id3 = "1"
mp3lame-encoder = "*"
