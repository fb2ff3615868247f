[package]
name = "kestrelcut"
version = "0.3.0"
edition = "2021"
publish = false

[dependencies]
serde = { version = "=1.0.229", features = ["derive"] }
serde_json = "=1.0.154"
ab_glyph = "=0.2.32"
rustybuzz = "=0.20.1"
unicode-bidi = "=0.3.18"
image = { version = "=0.25.10", default-features = false, features = ["png", "ico"] }
