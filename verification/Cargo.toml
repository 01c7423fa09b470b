[package]
name = "family_tree"
version = "0.1.0"
edition = "2021"
publish = false

[dependencies]
file_type = "=0.8.11"
image = { version = "=0.24.9", default-features = false }
ron = "=0.8.1"
serde = { version = "=1.0.229", features = ["derive"] }
anyhow = "=1.0.104"
thiserror = "=2.0.21"
lyon_algorithms = "=1.0.22"
palette = "=0.7.7"
