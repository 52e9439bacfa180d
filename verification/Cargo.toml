[package]
name = "process1"
version = "0.1.0"
edition = "2021"
publish = false

[dependencies]
confique = { version = "0.1", default-features = false, features = ["toml"] }
libc = "0.2"
log = "0.4"
nix = "0.24"
serde = { version = "1", features = ["derive"] }
