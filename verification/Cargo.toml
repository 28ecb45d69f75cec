[package]
name = "cond_templates"
version = "0.1.0"
edition = "2021"
publish = false

[dependencies]
anyhow = "1"
clap = { version = "4", features = ["derive"] }
colored = "2"
strsim = "0.11"
thiserror = "1"
walkdir = "2"
