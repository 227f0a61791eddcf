[package]
name = "libspacecadet"
version = "0.1.0"
edition = "2021"
publish = false

[dependencies]
evdev-rs = "0.2"
uinput = "0.1"
json = "0.12"
clap = "2"
libc = "0.2"
