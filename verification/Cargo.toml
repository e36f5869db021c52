[package]
name = "pkg_cache_clean"
version = "0.1.0"
edition = "2021"
publish = false

[dependencies]
clap = { version = "4", features = ["derive"] }
libc = "0.2"
walkdir = "2"

[dev-dependencies]
regex = "1"
