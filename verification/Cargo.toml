[package]
name = "fiskar"
version = "0.2.0"
edition = "2021"
publish = false

[dependencies]
clap = "=4.6.7"
cursive = "=0.21.1"
json = "=0.12.4"
slog = "=2.8.2"
slog-unwrap = "=0.9.2"
sloggers = "=2.2.0"
tungstenite = "=0.30.0"
url = "=2.5.8"
