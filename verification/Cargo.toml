[package]
name = "radio_track_splitter"
version = "0.1.0"
edition = "2021"
publish = false

[dependencies]
anyhow = "=1.0.104"
bytemuck = "=1.25.2"
candle-core = "=0.11.1"
candle-nn = "=0.11.1"
clap = { version = "=4.6.7", features = ["derive"] }
eframe = { version = "=0.37.0", default-features = false, features = ["default_fonts", "glow", "x11"] }
hound = "=3.5.1"
rfd = { version = "=0.17.2", default-features = false, features = ["xdg-portal"] }
rustfft = "=6.4.1"
serde = { version = "=1.0.229", features = ["derive"] }
serde_json = "=1.0.154"
tempfile = "=3.27.0"
