[package]
name = "cartunes"
version = "0.1.0"
edition = "2021"
publish = false

[dependencies]
encoding_rs = "*"
kuchiki = "*"
patricia_tree = "*"
unicode-segmentation = "*"
walkdir = "*"
hotwatch = "*"

[dev-dependencies]
human-sort = "*"
