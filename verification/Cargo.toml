[package]
name = "ai_isochrone"
version = "0.1.0"
edition = "2021"
publish = false

[dependencies]
chrono = "0.4"
clap = { version = "4", features = ["derive", "env"] }
image = { version = "0.25", default-features = false, features = ["png"] }
ordered-float = "4"
rayon = "1"
serde = { version = "1", features = ["derive"] }
serde_json = "1"
roaring-landmask = "*"
