[package]
name = "nepali"
version = "0.1.0"
edition = "2021"
publish = false

[dependencies]
once_cell = "=1.21.4"
regex = "=1.13.1"
ttf-parser = { version = "=0.25.1", default-features = false, features = ["std", "opentype-layout"] }
