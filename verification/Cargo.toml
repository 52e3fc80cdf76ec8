[package]
name = "mordle2"
version = "0.1.0"
edition = "2021"
publish = false

[dependencies]
roaring = "*"
unicode-segmentation = "1"
unicode-normalization = "0.1"
rand = "0.9"
clap = { version = "4", features = ["derive"] }
anyhow = "1"
env_logger = "*"
log = "0.4"
thiserror = "2"
