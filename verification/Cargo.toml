[package]
name = "wisp"
version = "0.1.0"
edition = "2021"
publish = false

[dependencies]
image = { version = "0.25", default-features = false, features = ["png", "jpeg", "gif", "bmp"] }
mlua = { version = "0.11", features = ["lua54", "vendored"] }
winit = "0.30"
softbuffer = "0.4"
arboard = "3"
alacritty_terminal = "0.25"
nix = { version = "0.29", features = ["fs", "signal", "process"] }
notify = "8"
signal-hook = "0.3"
swash = "0.2"
include_dir = "0.7"
