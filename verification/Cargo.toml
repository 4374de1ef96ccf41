[package]
name = "openjd_model"
version = "0.1.0"
edition = "2021"
publish = false

[dependencies]
openjd-expr = "=0.8.0"
indexmap = "=2.14.2"
regex = "=1.13.1"
serde = { version = "=1.0.229", features = ["derive"] }
serde_json = "=1.0.154"
serde_yaml = "=0.9.34+deprecated"
serde-saphyr = "=2.0.0"
thiserror = "=2.0.21"
