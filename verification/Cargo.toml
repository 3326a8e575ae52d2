[package]
name = "glyph_codec"
version = "0.1.0"
edition = "2021"
publish = false

[dependencies]
base64 = "*"
sha2 = "*"
serde_json = "*"
chrono = "*"
thiserror = "*"
