[package]
name = "chappie"
version = "0.1.0"
edition = "2021"
publish = false

[dependencies]
unicode-width = "=0.1.14"
half = "=2.7.1"
clap = { version = "=4.6.7", features = ["derive", "env"] }
thiserror = "=1.0.69"
memmap2 = "=0.9.12"
hex = "0.4"
serde = { version = "1", features = ["derive"] }
serde_json = "1"
utf8_iter = "1"
tempfile = "3"
