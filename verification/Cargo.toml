[package]
name = "patches"
version = "0.1.0"
edition = "2021"
publish = false

[dependencies]
rtrb = "=0.4.1"
serde = { version = "=1.0.229", features = ["derive"] }
serde_yml = "=0.0.13"
