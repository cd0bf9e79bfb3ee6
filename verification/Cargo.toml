[package]
name = "sound_effects"
version = "0.1.0"
edition = "2021"
publish = false

[dependencies]
fyrox-core = "*"
serde = { version = "1", features = ["derive"] }
strum = "0.25"
strum_macros = "0.25"
