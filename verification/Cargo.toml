[package]
name = "ouro"
version = "0.1.0"
edition = "2021"
publish = false

[dependencies]
shlex = "1"
similar = "2"
clap = { version = "4", features = ["derive"] }
colored = "2"
glob = "0.3"
rayon = "1"
serde = { version = "1", features = ["derive"] }
toml = "0.8"
