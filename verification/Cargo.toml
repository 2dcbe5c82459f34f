[package]
name = "music_diff"
version = "0.1.0"
edition = "2021"
publish = false

[dependencies]
xmltree = "0.10"
