[package]
name = "remedy"
version = "0.1.0"
edition = "2021"
publish = false

[dependencies]
pathdiff = "0.2"
rkyv = { version = "0.7", features = ["validation"] }
clap = { version = "4", features = ["derive"] }
bincode = "1"
