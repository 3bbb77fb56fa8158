[package]
name = "magic_mount"
version = "0.1.0"
edition = "2021"
publish = false

[dependencies]
anyhow = "=1.0.104"
extattr = "=1.0.0"
libc = "=0.2.191"
log = "=0.4.35"
rustix = { version = "=1.1.6", features = ["fs", "mount", "std"] }
