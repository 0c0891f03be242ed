[package]
name = "tidesdb"
version = "0.1.0"
edition = "2021"
publish = false

[dependencies]
snap = "*"
lz4_flex = "*"
miniz_oxide = "*"
zstd = "*"
thiserror = "*"
