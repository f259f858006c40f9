[package]
name = "lazymd"
version = "0.1.0"
edition = "2021"
publish = false

[dependencies]
anyhow = "1"
clap = { version = "4", features = ["derive", "env"] }
comrak = { version = "*", default-features = false }
crossterm = "*"
image = { version = "0.25", default-features = false, features = ["png", "jpeg", "gif"] }
log = "0.4"
notify = "*"
ratatui = "*"
ratatui-image = "*"
simplelog = "*"
syntect = { version = "5", default-features = false, features = ["default-fancy"] }
unicode-width = "*"
