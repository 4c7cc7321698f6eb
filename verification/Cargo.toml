[package]
name = "make_ultra"
version = "0.1.0"
edition = "2021"
publish = false

[dependencies]
regex = "1"
petgraph = "*"
hashbrown = { version = "*", features = ["serde"] }
bincode = "1"
snap = "1"
serde = { version = "1", features = ["derive"] }
toml = "*"
clap = "*"
ignore = "*"
