[package]
name = "shared_types"
version = "0.1.0"
edition = "2021"
publish = false

[dependencies]
cgmath = "=0.18.0"
rand = "=0.8.8"
priority-queue = "1"
