[package]
name = "aura_lib"
version = "0.1.0"
edition = "2021"
publish = false

[dependencies]
lru = "*"
nucleo = "*"
freedesktop-desktop-entry = "*"
freedesktop-icons = "*"
serde = { version = "1", features = ["derive"] }
serde_json = "1"
toml = "*"
xdg = "2"
log = "0.4"
env_logger = "*"
gtk4 = "*"
gtk4-layer-shell = "*"
