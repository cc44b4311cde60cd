[package]
name = "nio"
version = "0.1.0"
edition = "2021"
publish = false

[dependencies]
mio = { version = "*", features = ["os-poll", "os-ext"] }

[dev-dependencies]
nix = "0.26"
