[package]
name = "station_stats"
version = "0.1.0"
edition = "2021"
publish = false

[dependencies]
anyhow = "1"
clap = { version = "4", features = ["derive"] }
fxhash = "0.2"
humansize = "2"
indicatif = "0.17"
itertools = "0.12"
memchr = "2"
rand = "0.8"
