[package]
name = "dupefinder"
version = "0.1.0"
edition = "2021"
publish = false

[dependencies]
sha1 = "0.10"
walkdir = "2"

[dependencies.clap]
version = "4"
features = ["derive"]
