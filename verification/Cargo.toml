[package]
name = "sgcount"
version = "0.1.0"
edition = "2021"
publish = false

[dependencies]
anyhow = "=1.0.104"
bstr = "=1.13.1"
clap = { version = "=3.2.25", features = ["derive"] }
fxread = "=0.2.14"
hashbrown = "=0.14.5"
indicatif = "=0.17.11"
ndarray = "=0.15.6"
ndarray-stats = "=0.5.1"
rayon = "=1.12.0"
