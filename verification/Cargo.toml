[package]
name = "tauri-specta"
version = "0.1.0"
edition = "2021"
publish = false

[dependencies]
serde = "1"
serde_json = "1"
specta = { version = "=2.0.0-rc.20", features = ["function"] }
specta-typescript = "0.0.7"
tauri = { version = "2", default-features = false }
