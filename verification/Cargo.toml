[package]
name = "pagemap_inspect"
version = "0.1.0"
edition = "2021"
publish = false

[dependencies]
nix = { version = "*", features = ["uio", "user"] }
rayon = "1"
serde = { version = "1", features = ["derive"] }
structopt = "0.3"
