[package]
name = "open"
version = "0.1.0"
edition = "2021"
publish = false

[dependencies]
anyhow = "=1.0.104"
clap = { version = "=4.6.7", features = ["derive"] }
freedesktop_entry_parser = "=1.3.0"
mime = "=0.3.17"
xdg = "=2.5.2"
xdg-mime = "=0.4.0"
