[package]
name = "logviewer"
version = "0.1.0"
edition = "2021"
publish = false

[dependencies]
arboard = { version = "3", default-features = false }
crossterm = "0.28"
dirs = "6"
encoding_rs = "0.8"
grep-regex = "0.1"
grep-searcher = "0.1"
ratatui = "0.29"
regex = "1"
serde_json = "1"
toml = "0.8"
unicode-width = "0.2"
