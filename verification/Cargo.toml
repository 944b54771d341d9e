[package]
name = "mupattern"
version = "0.1.0"
edition = "2021"
publish = false

[dependencies]
clap = { version = "4", features = ["derive"] }
serde_json = "1"
tiff = "0.11"
zarrs = "0.23"
image = "0.25"
ndarray = "0.17"
ort = "=2.0.0-rc.13"
nd2-rs = "0.2"
