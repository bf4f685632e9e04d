[package]
name = "splat"
version = "0.1.0"
edition = "2021"
publish = false

[dependencies]
anyhow = "*"
clap = { version = "*", features = ["derive"] }
image = "*"
pulldown-cmark = "*"
rayon = "*"
serde = { version = "*", features = ["derive"] }
tera = "*"
toml = "*"
