[package]
name = "rust_slicer"
version = "0.1.0"
edition = "2021"
publish = false

[dependencies]
anyhow = "1"
log = "0.4"
rand = "=0.8.8"
rustc_data_structures = "0.1.2"
rustc_span = "0.1.2"
serde = { version = "1", features = ["derive"] }
