[package]
name = "comma"
version = "0.1.0"
edition = "2021"
publish = false

[dependencies]
alacritty_terminal = "0.26"
eframe = { version = "*", default-features = false, features = ["default_fonts", "glow", "x11"] }
egui = "*"
glob = "0.3"
libc = "0.2"
portable-pty = "*"
rustyline = "*"
serde = { version = "1", features = ["derive"] }
toml = "*"
