[package]
name = "charlotte_os"
version = "0.1.0"
edition = "2021"
publish = false

[dependencies]
spin = "0.9"
lazy_static = { version = "1", features = ["spin_no_std"] }
