[package]
name = "obddimal"
version = "0.1.0"
edition = "2021"
publish = false

[dependencies]
rand = "=0.8.8"
num_cpus = "=1.17.0"
serde = { version = "1", features = ["derive"] }
serde_json = "1"
toml = "*"
serde-xml-rs = "*"
