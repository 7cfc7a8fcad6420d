[package]
name = "asset_pipeline"
version = "0.1.0"
edition = "2021"
publish = false

[dependencies]
anyhow = "1"
aseprite = "*"
clap = { version = "4", features = ["derive"] }
ctrlc = "3"
dirs = "*"
notify = "*"
rayon = "1"
resvg = "*"
serde = { version = "1", features = ["derive"] }
serde_json = "1"
