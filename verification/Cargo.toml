[package]
name = "ayarify"
version = "0.1.0"
edition = "2021"
publish = false

[dependencies]
html5ever = "=0.39.0"
markup5ever_rcdom = "=0.39.0"
clap = { version = "=4.6.7", features = ["derive"] }
