[package]
name = "gpro"
version = "0.1.0"
edition = "2021"
publish = false

[dependencies]
rust-music-theory = "=0.2.0"
tui = { version = "=0.19.0", default-features = false, features = ["termion", "serde"] }
termion = "=1.5.6"
serde = { version = "=1.0.229", features = ["derive"] }
serde_yaml = "=0.8.26"
getopts = "=0.2.24"

[dev-dependencies]
regex = "=1.13.1"
