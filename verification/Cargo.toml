[package]
name = "pippop"
version = "0.1.0"
edition = "2021"
publish = false

[dependencies]
slotmap = "1"
macroquad = "0.4"
log = "0.4"
env_logger = "0.11"
