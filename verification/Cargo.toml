[package]
name = "rep_grow"
version = "0.1.0"
edition = "2021"
publish = false

[dependencies]
shakmaty = "0.27"
pyo3 = "0.27"
once_cell = "1"
reqwest = { version = "0.12", features = ["blocking"] }
serde = { version = "1", features = ["derive"] }
serde_json = "1"
toml = "0.8"
clap = { version = "4", features = ["derive"] }
chrono = "0.4"
anyhow = "1"
