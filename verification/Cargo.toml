[package]
name = "framevault"
version = "0.5.0"
edition = "2021"
publish = false

[dependencies]
anyhow = "=1.0.104"
clap = { version = "=4.6.7", features = ["derive"] }
ffmpeg-next = "=6.1.1"
qrcode = { version = "=0.14.1", default-features = false }
rayon = "=1.12.0"
realfft = "=3.5.1"
reed-solomon = "=0.2.1"
rqrr = { version = "=0.9.3", default-features = false }
serde = { version = "=1.0.229", features = ["derive"] }
serde_json = "=1.0.154"
sha2 = "=0.11.1"
sysinfo = "=0.33.1"
tempfile = "=3.27.0"
