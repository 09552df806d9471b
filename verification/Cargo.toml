[package]
name = "mca-viewer-rs"
version = "0.1.0"
edition = "2021"
publish = false

[dependencies]
libdeflater = "1"
fastnbt = "2"
serde = { version = "1", features = ["derive"] }
toml = "0.8"
image = { version = "0.25", default-features = false, features = ["png"] }
crossbeam-channel = "0.5"
anyhow = "1"
thiserror = "2"
tracing = "0.1"
tracing-subscriber = { version = "0.3", features = ["env-filter"] }
clap = { version = "4", features = ["derive"] }
rustc-hash = "2"
bytemuck = "1"
egui = "0.32"
eframe = { version = "0.32", default-features = false, features = ["glow", "default_fonts", "x11", "persistence"] }

[dev-dependencies]
rand = "0.9"
