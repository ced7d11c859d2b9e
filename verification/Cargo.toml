[package]
name = "word_dictionary"
version = "0.1.0"
edition = "2021"
publish = false

[dependencies]
trim-in-place = "=0.2.1"
serde = { version = "=1.0.229", features = ["derive"] }
tauri = { version = "*", default-features = false, features = ["wry"] }
