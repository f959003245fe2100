[package]
name = "zdt"
version = "0.1.0"
edition = "2021"
publish = false

[dependencies]
dirs = "*"
nucleo = "*"
regex-syntax = "*"
grep-regex = "*"
grep-searcher = "*"
grep-matcher = "*"
ignore = "*"
notify = "*"
toml = "*"
serde = { version = "1", features = ["derive"] }
serde_json = "1"
thiserror = "*"
rustc-hash = "*"
gix = "*"
