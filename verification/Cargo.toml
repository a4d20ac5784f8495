[package]
name = "raid"
version = "0.1.0"
edition = "2021"
publish = false

[dependencies]
crossbeam-channel = "=0.5.17"
oneshot = { version = "=0.2.1", features = ["std"] }
rand = "=0.10.3"
