[package]
name = "convex_hull_pf"
version = "0.1.0"
edition = "2021"
publish = false

[dependencies]
clap = "*"
image = "*"
serde = { version = "*", features = ["derive"] }
serde_json = "*"
toml = "*"
