[package]
name = "hegemon"
version = "0.1.0"
edition = "2021"
publish = false

[dependencies]
crossbeam-channel = "*"
regex = "*"
sensors = "*"
signal-hook = "*"
systemstat = "*"
termion = "*"
