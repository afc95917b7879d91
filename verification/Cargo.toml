[package]
name = "rzip"
version = "0.1.0"
edition = "2021"
publish = false

[dependencies]
fltk = "1"
zip = "0.6"
unrar = "0.4"
log = "0.4"
env_logger = "0.9"
