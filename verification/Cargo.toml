[package]
name = "arp"
version = "0.3.0"
edition = "2021"
publish = false

[dependencies]
anyhow = "1"
clap = { version = "4", features = ["derive"] }
cpal = "0.15"
hound = "3"
opus = "0.3"
symphonia = { version = "0.5", features = ["mp3", "ogg", "vorbis", "wav", "pcm", "flac"] }
aec-rs-sys = "*"
