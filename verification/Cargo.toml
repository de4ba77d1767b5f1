[package]
name = "draft_overlay"
version = "0.1.0"
edition = "2021"
publish = false

[dependencies]
hudhook = "0.8.3"
