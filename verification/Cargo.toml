[package]
name = "ink2tex"
version = "0.1.0"
edition = "2021"
publish = false

[dependencies]
anyhow = "=1.0.104"
clap = { version = "=4.6.7", features = ["derive"] }
libc = "=0.2.191"
libremarkable = "=0.7.0"
serde_json = { version = "=1.0.154", features = ["raw_value"] }
thiserror = "=1.0.69"
tiny-skia = "=0.12.0"
