[package]
name = "dbs_dither"
version = "0.1.0"
edition = "2021"
publish = false

[dependencies]
anyhow = "1"
image = "=0.25.6"
indicatif = "=0.17.11"
rand = "=0.9.5"
rayon = "=1.12.0"
serde = { version = "1", features = ["derive"] }
serde_yaml = "0.9"
