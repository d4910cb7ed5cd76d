[package]
name = "sshpick"
version = "0.1.0"
edition = "2021"
publish = false

[dependencies]
ratatui = "0.29"
crossterm = "0.28"
color-eyre = "0.6"
thiserror = "2"
