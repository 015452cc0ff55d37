[package]
name = "swsplrs"
version = "0.1.0"
edition = "2021"
publish = false

[dependencies]
anyhow = "=1.0.104"
argh = "=0.1.19"
capstone = "=0.14.0"
gimli = "=0.34.0"
indexmap = "=2.14.2"
indicatif = "=0.18.6"
lz4_flex = "=0.14.0"
objdiff-core = { version = "=3.8.3", default-features = false, features = ["arm64", "build", "config", "serde", "std"] }
rangemap = "=1.8.0"
serde = { version = "=1.0.229", features = ["derive"] }
serde_yml = "=0.0.13"
sha2 = "=0.10.9"
