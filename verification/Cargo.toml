[package]
name = "bcachefs_top"
version = "0.1.0"
edition = "2021"
publish = false

[dependencies]
anyhow = "1"
clap = { version = "4", features = ["derive"] }
crossterm = "0.28"
libc = "0.2"
nix = { version = "*", features = ["fs", "ioctl"] }
ratatui = "0.29"
serde = { version = "1", features = ["derive"] }
serde_json = "1"
strum = "0.26"
uuid = "1"
