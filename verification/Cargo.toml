[package]
name = "winreg"
version = "0.1.0"
edition = "2021"
publish = false

[dependencies]
rustc-serialize = "0.3"
serde = "1"

[dev-dependencies]
rand = "0.8"
