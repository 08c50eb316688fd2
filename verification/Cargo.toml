[package]
name = "tapr"
version = "0.1.0"
edition = "2021"
publish = false

[dependencies]
anyhow = "1"
csv = "1"
libc = "0.2"
structopt = "0.3"
terminal_size = "0.3"
thiserror = "1"
unicode-segmentation = "1"
unicode-width = "0.1"
