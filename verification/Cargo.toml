[package]
name = "cidrwall"
version = "0.1.0"
edition = "2021"
publish = false

[dependencies]
anyhow = "=1.0.104"
aya = "=0.14.0"
# Builds aya-ebpf; held below 0.2.1, which needs rustc 1.98.
aya-build = "=0.2.0"
aya-ebpf = "=0.2.1"
clap = { version = "=4.6.7", features = ["derive", "env"] }
log = "=0.4.35"
serde = { version = "=1.0.229", features = ["derive"] }
serde_json = "=1.0.154"
toml = "=0.9.12"
