[package]
name = "launch_manifest"
version = "0.1.0"
edition = "2021"
publish = false

[dependencies]
yaml-rust2 = "*"
serde = { version = "1", features = ["derive"] }
serde_yaml_ng = "*"
toml = "*"
thiserror = "*"
