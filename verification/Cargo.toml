[package]
name = "netpong"
version = "0.1.0"
edition = "2021"
publish = false

[dependencies]
bevy = { version = "=0.17.3", default-features = false }
bevy_egui = { version = "=0.37.1", default-features = false }
egui = { version = "=0.32.3", default-features = false }
log = "=0.4.35"
